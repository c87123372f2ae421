//! Which notes give way where more sound than may.
use crate::fold::WorkingNote;
use crate::harmony::{class_of, member_worth, ChordKind};
use crate::reduce::{chord_bonus, class_times, giving_way, is_outer, pitch_times, plain_key, plain_keys, thinned, victim_of, weight_of};
use crate::score::Tick;
use vstd::prelude::*;

verus! {

/// The pitch of a note that sounds.
pub open spec fn pitch_at(notes: Seq<WorkingNote>, active: Seq<usize>, k: int) -> i32 {
    notes[active[k] as int].note.pitch
}

/// What a note that sounds is worth by itself, in eighths.
pub open spec fn base_at(notes: Seq<WorkingNote>, active: Seq<usize>, k: int) -> int {
    notes[active[k] as int].base as int
}

/// Whether the notes that sound are there, none of them listed twice.
pub open spec fn are_sounding(notes: Seq<WorkingNote>, active: Seq<usize>) -> bool {
    &&& active.no_duplicates()
    &&& forall|k: int|
        0 <= k < active.len() ==> (#[trigger] active[k]) < notes.len() && 0
            <= notes[active[k] as int].base <= 10000
}

/// Whether another note sounds at the very pitch of one.
pub open spec fn is_doubled(notes: Seq<WorkingNote>, active: Seq<usize>, k: int) -> bool {
    exists|j: int|
        0 <= j < active.len() && j != k && #[trigger] pitch_at(notes, active, j) == pitch_at(
            notes,
            active,
            k,
        )
}

/// Whether no note that sounds is higher than one.
pub open spec fn is_top(notes: Seq<WorkingNote>, active: Seq<usize>, k: int) -> bool {
    forall|j: int|
        0 <= j < active.len() ==> #[trigger] pitch_at(notes, active, j) <= pitch_at(notes, active, k)
}

/// Whether no note that sounds is lower than one.
pub open spec fn is_bottom(notes: Seq<WorkingNote>, active: Seq<usize>, k: int) -> bool {
    forall|j: int|
        0 <= j < active.len() ==> #[trigger] pitch_at(notes, active, j) >= pitch_at(notes, active, k)
}

/// Whether a note sounds between the highest and the lowest.
pub open spec fn is_inner(notes: Seq<WorkingNote>, active: Seq<usize>, k: int) -> bool {
    !is_top(notes, active, k) && !is_bottom(notes, active, k)
}

/// Whether another note sounds just an octave above or below one.
pub open spec fn has_octave(notes: Seq<WorkingNote>, active: Seq<usize>, k: int) -> bool {
    exists|j: int|
        0 <= j < active.len() && (#[trigger] pitch_at(notes, active, j) == pitch_at(notes, active, k)
            + 12 || pitch_at(notes, active, j) == pitch_at(notes, active, k) - 12)
}

/// Whether no note that sounds is worth more than another by itself by some eighths or more.
pub open spec fn are_even(notes: Seq<WorkingNote>, active: Seq<usize>, most: int) -> bool {
    forall|i: int, j: int|
        #![trigger active[i], active[j]]
        0 <= i < active.len() && 0 <= j < active.len() ==> base_at(notes, active, i) < base_at(
            notes,
            active,
            j,
        ) + most
}

proof fn lemma_pitch_times(notes: Seq<WorkingNote>, active: Seq<usize>, pitch: int, n: int)
    requires
        0 <= n <= active.len(),
    ensures
        0 <= pitch_times(notes, active, pitch, n) <= n,
        pitch_times(notes, active, pitch, n) > 0 <==> exists|i: int|
            0 <= i < n && #[trigger] pitch_at(notes, active, i) == pitch,
        pitch_times(notes, active, pitch, n) > 1 <==> exists|i: int, j: int|
            0 <= i < j < n && #[trigger] pitch_at(notes, active, i) == pitch && #[trigger] pitch_at(
                notes,
                active,
                j,
            ) == pitch,
    decreases n,
{
    if n > 0 {
        lemma_pitch_times(notes, active, pitch, n - 1);
        let here = pitch_at(notes, active, n - 1) == pitch;
        if pitch_times(notes, active, pitch, n) > 1 {
            if pitch_times(notes, active, pitch, n - 1) > 1 {
            } else {
                assert(here && pitch_times(notes, active, pitch, n - 1) > 0);
                let i = choose|i: int| 0 <= i < n - 1 && #[trigger] pitch_at(notes, active, i) == pitch;
                assert(pitch_at(notes, active, i) == pitch && pitch_at(notes, active, n - 1) == pitch);
            }
        }
        if exists|i: int, j: int|
            0 <= i < j < n && #[trigger] pitch_at(notes, active, i) == pitch && #[trigger] pitch_at(
                notes,
                active,
                j,
            ) == pitch {
            let (i, j) = choose|i: int, j: int|
                0 <= i < j < n && #[trigger] pitch_at(notes, active, i) == pitch
                    && #[trigger] pitch_at(notes, active, j) == pitch;
            assert(pitch_at(notes, active, i) == pitch);
            if j == n - 1 {
                assert(pitch_times(notes, active, pitch, n - 1) > 0);
            }
        }
    }
}

proof fn lemma_class_times(notes: Seq<WorkingNote>, active: Seq<usize>, class: int, n: int)
    requires
        0 <= n <= active.len(),
    ensures
        0 <= class_times(notes, active, class, n) <= n,
        (exists|i: int| 0 <= i < n && class_of(#[trigger] pitch_at(notes, active, i) as int) == class)
            ==> class_times(notes, active, class, n) > 0,
        (exists|i: int, j: int|
            0 <= i < j < n && class_of(#[trigger] pitch_at(notes, active, i) as int) == class
                && class_of(#[trigger] pitch_at(notes, active, j) as int) == class) ==> class_times(
            notes,
            active,
            class,
            n,
        ) > 1,
    decreases n,
{
    if n > 0 {
        lemma_class_times(notes, active, class, n - 1);
        if exists|i: int, j: int|
            0 <= i < j < n && class_of(#[trigger] pitch_at(notes, active, i) as int) == class
                && class_of(#[trigger] pitch_at(notes, active, j) as int) == class {
            let (i, j) = choose|i: int, j: int|
                0 <= i < j < n && class_of(#[trigger] pitch_at(notes, active, i) as int) == class
                    && class_of(#[trigger] pitch_at(notes, active, j) as int) == class;
            assert(class_of(pitch_at(notes, active, i) as int) == class);
            if j < n - 1 {
                assert(class_of(pitch_at(notes, active, j) as int) == class);
            }
        }
    }
}

proof fn lemma_bonus(classes: Seq<bool>, pitch: int)
    ensures
        0 <= chord_bonus(classes, pitch) <= 640,
{
}

/// What a note is weighed by, put together.
proof fn lemma_key(notes: Seq<WorkingNote>, active: Seq<usize>, classes: Seq<bool>, tick: Tick, k: int) -> (bonus:
    int)
    requires
        are_sounding(notes, active),
        0 <= k < active.len(),
    ensures
        0 <= bonus <= 640,
        bonus == 0 || bonus == chord_bonus(classes, pitch_at(notes, active, k) as int),
        is_doubled(notes, active, k) || has_octave(notes, active, k) ==> bonus == 0,
        plain_keys(notes, active, classes, tick)[k] == base_at(notes, active, k) + (if is_top(
            notes,
            active,
            k,
        ) {
            880int
        } else {
            0int
        }) + (if is_bottom(notes, active, k) {
            760int
        } else {
            0int
        }) + bonus - (if is_doubled(notes, active, k) {
            2080int
        } else {
            0int
        }) - (if is_inner(notes, active, k) && has_octave(notes, active, k) {
            560int
        } else {
            0int
        }),
        bonus == (if class_times(
            notes,
            active,
            class_of(pitch_at(notes, active, k) as int),
            active.len() as int,
        ) == 1 {
            chord_bonus(classes, pitch_at(notes, active, k) as int)
        } else {
            0
        }),
{
    let n = active.len() as int;
    let p = pitch_at(notes, active, k) as int;
    let high = is_outer(notes, active, p, false);
    let low = is_outer(notes, active, p, true);
    assert(active[k] < notes.len());
    assert(high == is_top(notes, active, k)) by {
        if high {
            assert forall|j: int| 0 <= j < n implies #[trigger] pitch_at(notes, active, j)
                <= pitch_at(notes, active, k) by {
                assert(notes[active[j] as int].note.pitch <= p);
            }
        }
        if is_top(notes, active, k) {
            assert forall|j: int| 0 <= j < n implies notes[(#[trigger] active[j]) as int].note.pitch
                <= p by {
                assert(pitch_at(notes, active, j) <= pitch_at(notes, active, k));
            }
        }
    }
    assert(low == is_bottom(notes, active, k)) by {
        if low {
            assert forall|j: int| 0 <= j < n implies #[trigger] pitch_at(notes, active, j)
                >= pitch_at(notes, active, k) by {
                assert(p <= notes[active[j] as int].note.pitch);
            }
        }
        if is_bottom(notes, active, k) {
            assert forall|j: int| 0 <= j < n implies p <= notes[(#[trigger] active[j]) as int].note.pitch by {
                assert(pitch_at(notes, active, j) >= pitch_at(notes, active, k));
            }
        }
    }
    lemma_pitch_times(notes, active, p, n);
    lemma_pitch_times(notes, active, p - 12, n);
    lemma_pitch_times(notes, active, p + 12, n);
    assert((pitch_times(notes, active, p, n) > 1) == is_doubled(notes, active, k)) by {
        if pitch_times(notes, active, p, n) > 1 {
            let (i, j) = choose|i: int, j: int|
                0 <= i < j < n && #[trigger] pitch_at(notes, active, i) == p && #[trigger] pitch_at(
                    notes,
                    active,
                    j,
                ) == p;
            if i != k {
                assert(pitch_at(notes, active, i) == pitch_at(notes, active, k));
            } else {
                assert(pitch_at(notes, active, j) == pitch_at(notes, active, k));
            }
        }
        if is_doubled(notes, active, k) {
            let j = choose|j: int|
                0 <= j < n && j != k && #[trigger] pitch_at(notes, active, j) == pitch_at(
                    notes,
                    active,
                    k,
                );
            if j < k {
                assert(pitch_at(notes, active, j) == p && pitch_at(notes, active, k) == p);
            } else {
                assert(pitch_at(notes, active, k) == p && pitch_at(notes, active, j) == p);
            }
        }
    }
    assert((pitch_times(notes, active, p - 12, n) > 0 || pitch_times(notes, active, p + 12, n) > 0)
        == has_octave(notes, active, k)) by {
        if has_octave(notes, active, k) {
            let j = choose|j: int|
                0 <= j < active.len() && (#[trigger] pitch_at(notes, active, j) == pitch_at(
                    notes,
                    active,
                    k,
                ) + 12 || pitch_at(notes, active, j) == pitch_at(notes, active, k) - 12);
            if pitch_at(notes, active, j) == p + 12 {
                assert(pitch_times(notes, active, p + 12, n) > 0);
            } else {
                assert(pitch_times(notes, active, p - 12, n) > 0);
            }
        }
        if pitch_times(notes, active, p - 12, n) > 0 {
            let j = choose|j: int| 0 <= j < n && #[trigger] pitch_at(notes, active, j) == p - 12;
            assert(pitch_at(notes, active, j) == pitch_at(notes, active, k) - 12);
        }
        if pitch_times(notes, active, p + 12, n) > 0 {
            let j = choose|j: int| 0 <= j < n && #[trigger] pitch_at(notes, active, j) == p + 12;
            assert(pitch_at(notes, active, j) == pitch_at(notes, active, k) + 12);
        }
    }
    let c = class_of(p);
    lemma_class_times(notes, active, c, n);
    assert(is_doubled(notes, active, k) || has_octave(notes, active, k) ==> class_times(
        notes,
        active,
        c,
        n,
    ) > 1) by {
        if is_doubled(notes, active, k) || has_octave(notes, active, k) {
            let j = if is_doubled(notes, active, k) {
                choose|j: int|
                    0 <= j < n && j != k && #[trigger] pitch_at(notes, active, j) == pitch_at(
                        notes,
                        active,
                        k,
                    )
            } else {
                choose|j: int|
                    0 <= j < active.len() && (#[trigger] pitch_at(notes, active, j) == pitch_at(
                        notes,
                        active,
                        k,
                    ) + 12 || pitch_at(notes, active, j) == pitch_at(notes, active, k) - 12)
            };
            let q = pitch_at(notes, active, j) as int;
            assert(class_of(q) == c);
            assert(j != k);
            if j < k {
                assert(class_of(pitch_at(notes, active, j) as int) == c && class_of(
                    pitch_at(notes, active, k) as int,
                ) == c);
            } else {
                assert(class_of(pitch_at(notes, active, k) as int) == c && class_of(
                    pitch_at(notes, active, j) as int,
                ) == c);
            }
        }
    }
    lemma_bonus(classes, p);
    let w = weight_of(notes, active, classes, tick, k);
    let bonus = if class_times(notes, active, c, n) == 1 {
        chord_bonus(classes, p)
    } else {
        0
    };
    assert(plain_keys(notes, active, classes, tick)[k] == plain_key(w) as i64);
    bonus
}

/// A note that sounds twice weighs less than any that sounds once, unless it is worth eighty more
/// by itself.
pub proof fn law_doubled_weighs_less(
    notes: Seq<WorkingNote>,
    active: Seq<usize>,
    classes: Seq<bool>,
    tick: Tick,
    i: int,
    j: int,
)
    requires
        are_sounding(notes, active),
        0 <= i < active.len(),
        0 <= j < active.len(),
        is_doubled(notes, active, i),
        !is_doubled(notes, active, j),
        base_at(notes, active, i) < base_at(notes, active, j) + 8 * 80,
    ensures
        plain_keys(notes, active, classes, tick)[i] < plain_keys(notes, active, classes, tick)[j],
{
    let a = lemma_key(notes, active, classes, tick, i);
    let b = lemma_key(notes, active, classes, tick, j);
    assert(!(is_top(notes, active, i) && is_bottom(notes, active, i))) by {
        if is_top(notes, active, i) && is_bottom(notes, active, i) {
            assert(pitch_at(notes, active, j) == pitch_at(notes, active, i));
            assert(i != j);
        }
    }
}

/// The highest of the notes that sound weighs more than any inner one that is not worth thirty
/// more by itself, and the lowest more than any that is not worth fifteen more.
pub proof fn law_outer_weigh_more(
    notes: Seq<WorkingNote>,
    active: Seq<usize>,
    classes: Seq<bool>,
    tick: Tick,
    i: int,
    j: int,
)
    requires
        are_sounding(notes, active),
        0 <= i < active.len(),
        0 <= j < active.len(),
        is_inner(notes, active, i),
        !is_doubled(notes, active, j),
        is_top(notes, active, j) && base_at(notes, active, i) < base_at(notes, active, j) + 8 * 30
            || is_bottom(notes, active, j) && base_at(notes, active, i) < base_at(notes, active, j)
            + 8 * 15,
    ensures
        plain_keys(notes, active, classes, tick)[i] < plain_keys(notes, active, classes, tick)[j],
{
    let a = lemma_key(notes, active, classes, tick, i);
    let b = lemma_key(notes, active, classes, tick, j);
}

/// Of inner notes that sound once, one that sounds in another octave too weighs less than one
/// that does not, unless it is worth seventy more by itself.
pub proof fn law_octaves_weigh_less(
    notes: Seq<WorkingNote>,
    active: Seq<usize>,
    classes: Seq<bool>,
    tick: Tick,
    i: int,
    j: int,
)
    requires
        are_sounding(notes, active),
        0 <= i < active.len(),
        0 <= j < active.len(),
        is_inner(notes, active, i),
        has_octave(notes, active, i),
        !has_octave(notes, active, j),
        !is_doubled(notes, active, j),
        base_at(notes, active, i) < base_at(notes, active, j) + 8 * 70,
    ensures
        plain_keys(notes, active, classes, tick)[i] < plain_keys(notes, active, classes, tick)[j],
{
    let a = lemma_key(notes, active, classes, tick, i);
    let b = lemma_key(notes, active, classes, tick, j);
}

proof fn lemma_interval(root: int, interval: int)
    requires
        0 <= root < 12,
        0 <= interval < 12,
    ensures
        (class_of(root + interval) - root) % 12 == interval,
{
    if root + interval < 12 {
        assert(class_of(root + interval) == root + interval);
    } else {
        assert(class_of(root + interval) == root + interval - 12);
    }
}

/// The same note weighs less for a twin at its very pitch, by two hundred and sixty at least where
/// it is the only one.
pub proof fn law_twin_weighs(
    notes: Seq<WorkingNote>,
    active: Seq<usize>,
    classes: Seq<bool>,
    tick: Tick,
    k: int,
    j: int,
)
    requires
        are_sounding(notes, active),
        0 <= k < active.len(),
        0 <= j < active.len(),
        j != k,
        pitch_at(notes, active, j) == pitch_at(notes, active, k),
    ensures
        ({
            let alone = active.remove(j);
            let at = if k < j {
                k
            } else {
                k - 1
            };
            let with = plain_keys(notes, active, classes, tick)[k];
            let without = plain_keys(notes, alone, classes, tick)[at];
            &&& with <= without
            &&& !is_doubled(notes, alone, at) ==> with + 8 * 260 <= without
        }),
{
    let alone = active.remove(j);
    let at = if k < j {
        k
    } else {
        k - 1
    };
    assert forall|i: int| 0 <= i < alone.len() implies (#[trigger] alone[i]) == active[if i < j {
        i
    } else {
        i + 1
    }] by {}
    assert(alone[at] == active[k]);
    assert forall|i: int| 0 <= i < alone.len() implies (#[trigger] alone[i]) < notes.len() && 0
        <= notes[alone[i] as int].base <= 10000 by {
        let q = if i < j {
            i
        } else {
            i + 1
        };
        assert(alone[i] == active[q]);
        assert(active[q] < notes.len());
    }
    assert(alone.no_duplicates()) by {
        assert forall|a: int, b: int|
            0 <= a < alone.len() && 0 <= b < alone.len() && a != b implies alone[a] != alone[b] by {
            let p = if a < j {
                a
            } else {
                a + 1
            };
            let q = if b < j {
                b
            } else {
                b + 1
            };
            assert(alone[a] == active[p] && alone[b] == active[q]);
        }
    }
    // Every note that sounds alone sounds here too, and what is here sounds alone or is the twin.
    assert forall|i: int| 0 <= i < alone.len() implies is_heard(
        notes,
        active,
        #[trigger] pitch_at(notes, alone, i),
    ) by {
        let q = if i < j {
            i
        } else {
            i + 1
        };
        assert(pitch_at(notes, active, q) == pitch_at(notes, alone, i));
    }
    assert forall|i: int| 0 <= i < active.len() implies is_heard(
        notes,
        alone,
        #[trigger] pitch_at(notes, active, i),
    ) by {
        if i == j {
            assert(pitch_at(notes, alone, at) == pitch_at(notes, active, i));
        } else {
            let q = if i < j {
                i
            } else {
                i - 1
            };
            assert(pitch_at(notes, alone, q) == pitch_at(notes, active, i));
        }
    }
    assert(pitch_at(notes, alone, at) == pitch_at(notes, active, k));
    assert(is_doubled(notes, active, k));
    assert(is_top(notes, active, k) == is_top(notes, alone, at)) by {
        if is_top(notes, active, k) {
            assert forall|i: int| 0 <= i < alone.len() implies #[trigger] pitch_at(notes, alone, i)
                <= pitch_at(notes, alone, at) by {
                assert(is_heard(notes, active, pitch_at(notes, alone, i)));
            }
        }
        if is_top(notes, alone, at) {
            assert forall|i: int| 0 <= i < active.len() implies #[trigger] pitch_at(notes, active, i)
                <= pitch_at(notes, active, k) by {
                assert(is_heard(notes, alone, pitch_at(notes, active, i)));
            }
        }
    }
    assert(is_bottom(notes, active, k) == is_bottom(notes, alone, at)) by {
        if is_bottom(notes, active, k) {
            assert forall|i: int| 0 <= i < alone.len() implies #[trigger] pitch_at(notes, alone, i)
                >= pitch_at(notes, alone, at) by {
                assert(is_heard(notes, active, pitch_at(notes, alone, i)));
            }
        }
        if is_bottom(notes, alone, at) {
            assert forall|i: int| 0 <= i < active.len() implies #[trigger] pitch_at(notes, active, i)
                >= pitch_at(notes, active, k) by {
                assert(is_heard(notes, alone, pitch_at(notes, active, i)));
            }
        }
    }
    assert(has_octave(notes, alone, at) ==> has_octave(notes, active, k)) by {
        if has_octave(notes, alone, at) {
            let i = choose|i: int|
                0 <= i < alone.len() && (#[trigger] pitch_at(notes, alone, i) == pitch_at(
                    notes,
                    alone,
                    at,
                ) + 12 || pitch_at(notes, alone, i) == pitch_at(notes, alone, at) - 12);
            assert(is_heard(notes, active, pitch_at(notes, alone, i)));
            let q = choose|q: int|
                0 <= q < active.len() && #[trigger] pitch_at(notes, active, q) == pitch_at(
                    notes,
                    alone,
                    i,
                );
            assert(pitch_at(notes, active, q) == pitch_at(notes, active, k) + 12 || pitch_at(
                notes,
                active,
                q,
            ) == pitch_at(notes, active, k) - 12);
        }
    }
    let a = lemma_key(notes, active, classes, tick, k);
    let b = lemma_key(notes, alone, classes, tick, at);
}

/// Where notes that sound spell a chord, the third and the fourth member are worth most of all, as
/// is a fifth that is not perfect; the root is worth more than a perfect fifth, and that more
/// than what is no member. In which octave a member sounds makes no difference.
pub proof fn law_members(root: int, kind: ChordKind, interval: int, pitch: int)
    requires
        0 <= root < 12,
        0 <= interval < 12,
    ensures
        member_worth(root, kind, root + kind.third()) > member_worth(root, kind, root),
        kind.fifth() == 7 ==> member_worth(root, kind, root) > member_worth(root, kind, root + 7) > 0,
        kind.fifth() != 7 ==> member_worth(root, kind, root + kind.fifth()) == member_worth(
            root,
            kind,
            root + kind.third(),
        ),
        kind.fourth() matches Some(f) ==> member_worth(root, kind, root + f) == member_worth(
            root,
            kind,
            root + kind.third(),
        ),
        !kind.has(interval) ==> member_worth(root, kind, root + interval) == 0,
        member_worth(root, kind, pitch + 12) == member_worth(root, kind, pitch),
{
    lemma_interval(root, 0);
    lemma_interval(root, kind.third());
    lemma_interval(root, kind.fifth());
    lemma_interval(root, interval);
    if kind.fourth() is Some {
        lemma_interval(root, kind.fourth()->Some_0);
    }
    assert(class_of(pitch + 12) == class_of(pitch));
}

proof fn lemma_victim(
    notes: Seq<WorkingNote>,
    active: Seq<usize>,
    tick: Tick,
    keys: Seq<i64>,
    n: int,
)
    requires
        1 <= n <= keys.len(),
    ensures
        0 <= victim_of(notes, active, tick, true, keys, n) < n,
        forall|k: int|
            0 <= k < n ==> keys[victim_of(notes, active, tick, true, keys, n)] <= #[trigger] keys[k],
    decreases n,
{
    if n > 1 {
        lemma_victim(notes, active, tick, keys, n - 1);
    }
}

/// The note that gives way has no greater weight than any other that sounds.
proof fn lemma_least(notes: Seq<WorkingNote>, active: Seq<usize>, classes: Seq<bool>, tick: Tick)
    requires
        active.len() > 0,
    ensures
        ({
            let keys = plain_keys(notes, active, classes, tick);
            let v = victim_of(notes, active, tick, true, keys, active.len() as int);
            0 <= v < active.len() && forall|k: int|
                0 <= k < active.len() ==> keys[v] <= #[trigger] keys[k]
        }),
{
    lemma_victim(
        notes,
        active,
        tick,
        plain_keys(notes, active, classes, tick),
        active.len() as int,
    );
}

/// Where a pitch sounds twice and no note is worth eighty more than another by itself, the note
/// that gives way is one whose pitch sounds twice: the pitch goes on sounding.
pub proof fn law_doubled_gives_way(notes: Seq<WorkingNote>, active: Seq<usize>, classes: Seq<bool>, tick: Tick, i: int)
    requires
        are_sounding(notes, active),
        are_even(notes, active, 640),
        0 <= i < active.len(),
        is_doubled(notes, active, i),
    ensures
        is_doubled(
            notes,
            active,
            victim_of(
                notes,
                active,
                tick,
                true,
                plain_keys(notes, active, classes, tick),
                active.len() as int,
            ),
        ),
{
    let keys = plain_keys(notes, active, classes, tick);
    let v = victim_of(notes, active, tick, true, keys, active.len() as int);
    lemma_least(notes, active, classes, tick);
    if !is_doubled(notes, active, v) {
        assert(base_at(notes, active, i) < base_at(notes, active, v) + 8 * 80) by {
            assert(active[i] < notes.len() && active[v] < notes.len());
        }
        law_doubled_weighs_less(notes, active, classes, tick, i, v);
        assert(keys[v] <= keys[i]);
    }
}

/// Where no pitch sounds twice, more than two notes sound, and none is worth fifteen more than
/// another by itself, the note that gives way is an inner one, and one that sounds in another
/// octave too where there is such an inner one.
pub proof fn law_inner_gives_way(notes: Seq<WorkingNote>, active: Seq<usize>, classes: Seq<bool>, tick: Tick)
    requires
        are_sounding(notes, active),
        are_even(notes, active, 120),
        active.len() > 2,
        forall|k: int| 0 <= k < active.len() ==> !#[trigger] is_doubled(notes, active, k),
    ensures
        ({
            let v = victim_of(
                notes,
                active,
                tick,
                true,
                plain_keys(notes, active, classes, tick),
                active.len() as int,
            );
            &&& is_inner(notes, active, v)
            &&& (exists|k: int|
                0 <= k < active.len() && #[trigger] is_inner(notes, active, k) && has_octave(
                    notes,
                    active,
                    k,
                )) ==> has_octave(notes, active, v)
        }),
{
    let keys = plain_keys(notes, active, classes, tick);
    let n = active.len() as int;
    let v = victim_of(notes, active, tick, true, keys, n);
    lemma_least(notes, active, classes, tick);
    let t = lemma_top(notes, active, n);
    let b = lemma_bottom(notes, active, n);
    let m: int = if t != 0 && b != 0 {
        0
    } else if t != 1 && b != 1 {
        1
    } else {
        2
    };
    assert(!is_doubled(notes, active, m) && !is_doubled(notes, active, v));
    assert(is_inner(notes, active, m)) by {
        if is_top(notes, active, m) {
            assert(pitch_at(notes, active, t) == pitch_at(notes, active, m));
        }
        if is_bottom(notes, active, m) {
            assert(pitch_at(notes, active, b) == pitch_at(notes, active, m));
        }
    }
    assert(base_at(notes, active, m) < base_at(notes, active, v) + 8 * 15) by {
        assert(active[m] < notes.len() && active[v] < notes.len());
    }
    if !is_inner(notes, active, v) {
        law_outer_weigh_more(notes, active, classes, tick, m, v);
        assert(keys[v] <= keys[m]);
    }
    if exists|k: int|
        0 <= k < active.len() && #[trigger] is_inner(notes, active, k) && has_octave(
            notes,
            active,
            k,
        ) {
        let k = choose|k: int|
            0 <= k < active.len() && #[trigger] is_inner(notes, active, k) && has_octave(
                notes,
                active,
                k,
            );
        if !has_octave(notes, active, v) {
            assert(base_at(notes, active, k) < base_at(notes, active, v) + 8 * 15) by {
                assert(active[k] < notes.len() && active[v] < notes.len());
            }
            law_octaves_weigh_less(notes, active, classes, tick, k, v);
            assert(keys[v] <= keys[k]);
        }
    }
}

proof fn lemma_top(notes: Seq<WorkingNote>, active: Seq<usize>, n: int) -> (t: int)
    requires
        1 <= n <= active.len(),
    ensures
        0 <= t < n,
        forall|j: int| 0 <= j < n ==> #[trigger] pitch_at(notes, active, j) <= pitch_at(notes, active, t),
        n == active.len() ==> is_top(notes, active, t),
    decreases n,
{
    if n == 1 {
        0
    } else {
        let t = lemma_top(notes, active, n - 1);
        if pitch_at(notes, active, n - 1) > pitch_at(notes, active, t) {
            n - 1
        } else {
            t
        }
    }
}

proof fn lemma_bottom(notes: Seq<WorkingNote>, active: Seq<usize>, n: int) -> (t: int)
    requires
        1 <= n <= active.len(),
    ensures
        0 <= t < n,
        forall|j: int| 0 <= j < n ==> #[trigger] pitch_at(notes, active, j) >= pitch_at(notes, active, t),
        n == active.len() ==> is_bottom(notes, active, t),
    decreases n,
{
    if n == 1 {
        0
    } else {
        let t = lemma_bottom(notes, active, n - 1);
        if pitch_at(notes, active, n - 1) < pitch_at(notes, active, t) {
            n - 1
        } else {
            t
        }
    }
}

/// Whether a pitch sounds.
pub open spec fn is_heard(notes: Seq<WorkingNote>, active: Seq<usize>, pitch: i32) -> bool {
    exists|k: int| 0 <= k < active.len() && #[trigger] pitch_at(notes, active, k) == pitch
}

/// More notes than pitches: one of these sounds twice.
proof fn lemma_pigeons(notes: Seq<WorkingNote>, active: Seq<usize>, chord: Seq<i32>) -> (k: int)
    requires
        active.len() > chord.len(),
        forall|k: int| 0 <= k < active.len() ==> chord.contains(#[trigger] pitch_at(notes, active, k)),
    ensures
        0 <= k < active.len(),
        is_doubled(notes, active, k),
    decreases active.len(),
{
    let n = active.len() as int;
    if is_doubled(notes, active, n - 1) {
        n - 1
    } else {
        let p = pitch_at(notes, active, n - 1);
        let c = choose|c: int| 0 <= c < chord.len() && chord[c] == p;
        let fewer = chord.remove(c);
        let front = active.drop_last();
        assert forall|k: int| 0 <= k < front.len() implies fewer.contains(
            #[trigger] pitch_at(notes, front, k),
        ) by {
            assert(pitch_at(notes, front, k) == pitch_at(notes, active, k));
            assert(chord.contains(pitch_at(notes, active, k)));
            let q = choose|q: int| 0 <= q < chord.len() && chord[q] == pitch_at(notes, active, k);
            assert(q != c) by {
                if q == c {
                    assert(pitch_at(notes, active, k) == pitch_at(notes, active, n - 1));
                }
            }
            let z = if q < c {
                q
            } else {
                q - 1
            };
            assert(fewer[z] == chord[q]);
        }
        let k = lemma_pigeons(notes, front, fewer);
        let j = choose|j: int|
            0 <= j < front.len() && j != k && #[trigger] pitch_at(notes, front, j) == pitch_at(
                notes,
                front,
                k,
            );
        assert(pitch_at(notes, active, j) == pitch_at(notes, front, j));
        assert(pitch_at(notes, active, k) == pitch_at(notes, front, k));
        k
    }
}

/// What giving way leaves of the notes that go on sounding.
pub(crate) proof fn lemma_given_way(notes: Seq<WorkingNote>, active: Seq<usize>, tick: Tick, v: int, most: int)
    requires
        are_sounding(notes, active),
        are_even(notes, active, most),
        0 <= v < active.len(),
    ensures
        ({
            let i = active[v] as int;
            let rest = notes.update(i, giving_way(notes[i], tick));
            let left = active.remove(v);
            &&& are_sounding(rest, left)
            &&& are_even(rest, left, most)
            &&& left.len() == active.len() - 1
            &&& forall|k: int|
                0 <= k < left.len() ==> rest[(#[trigger] left[k]) as int] == notes[left[k] as int]
                    && active.contains(left[k])
            &&& forall|k: int|
                0 <= k < active.len() && k != v ==> is_heard(
                    rest,
                    left,
                    #[trigger] pitch_at(notes, active, k),
                )
            &&& forall|k: int|
                0 <= k < left.len() ==> is_heard(
                    notes,
                    active,
                    #[trigger] pitch_at(rest, left, k),
                )
        }),
{
    let i = active[v] as int;
    let rest = notes.update(i, giving_way(notes[i], tick));
    let left = active.remove(v);
    assert(active[v] < notes.len());
    assert forall|k: int| 0 <= k < left.len() implies rest[(#[trigger] left[k]) as int]
        == notes[left[k] as int] && active.contains(left[k]) && left[k] < notes.len() && 0
        <= notes[left[k] as int].base <= 10000 by {
        let q = if k < v {
            k
        } else {
            k + 1
        };
        assert(left[k] == active[q]);
        assert(active[q] < notes.len());
        assert(active[q] != active[v]);
    }
    assert(left.no_duplicates()) by {
        assert forall|a: int, b: int|
            0 <= a < left.len() && 0 <= b < left.len() && a != b implies left[a] != left[b] by {
            let p = if a < v {
                a
            } else {
                a + 1
            };
            let q = if b < v {
                b
            } else {
                b + 1
            };
            assert(left[a] == active[p] && left[b] == active[q]);
        }
    }
    assert forall|a: int, b: int|
        #![trigger left[a], left[b]]
        0 <= a < left.len() && 0 <= b < left.len() implies base_at(rest, left, a) < base_at(
        rest,
        left,
        b,
    ) + most by {
        let p = if a < v {
            a
        } else {
            a + 1
        };
        let q = if b < v {
            b
        } else {
            b + 1
        };
        assert(left[a] == active[p] && left[b] == active[q]);
        assert(rest[left[a] as int] == notes[left[a] as int]);
        assert(rest[left[b] as int] == notes[left[b] as int]);
    }
    assert forall|k: int| 0 <= k < active.len() && k != v implies is_heard(
        rest,
        left,
        #[trigger] pitch_at(notes, active, k),
    ) by {
        let q = if k < v {
            k
        } else {
            k - 1
        };
        assert(left[q] == active[k]);
        assert(pitch_at(rest, left, q) == pitch_at(notes, active, k));
    }
    assert forall|k: int| 0 <= k < left.len() implies is_heard(
        notes,
        active,
        #[trigger] pitch_at(rest, left, k),
    ) by {
        let q = if k < v {
            k
        } else {
            k + 1
        };
        assert(left[k] == active[q]);
        assert(pitch_at(rest, left, k) == pitch_at(notes, active, q));
    }
}

/// Whether notes that go on sounding are as they were.
pub open spec fn sound_on(notes: Seq<WorkingNote>, rest: Seq<WorkingNote>, active: Seq<usize>, left: Seq<usize>) -> bool {
    forall|k: int|
        0 <= k < left.len() ==> active.contains(#[trigger] left[k]) && rest[left[k] as int]
            == notes[left[k] as int]
}

/// A chord whose different pitches are no more than may sound keeps every one of them, where no
/// note is worth eighty more than another by itself: only what sounds twice gives way.
pub proof fn law_chord_keeps_pitches(
    notes: Seq<WorkingNote>,
    active: Seq<usize>,
    classes: Seq<bool>,
    tick: Tick,
    limit: int,
    chord: Seq<i32>,
)
    requires
        are_sounding(notes, active),
        are_even(notes, active, 640),
        chord.len() <= limit,
        forall|k: int| 0 <= k < active.len() ==> chord.contains(#[trigger] pitch_at(notes, active, k)),
    ensures
        ({
            let (rest, left) = thinned(notes, active, classes, tick, limit);
            &&& left.len() <= limit
            &&& rest.len() == notes.len()
            &&& sound_on(notes, rest, active, left)
            &&& forall|k: int|
                0 <= k < active.len() ==> is_heard(rest, left, #[trigger] pitch_at(notes, active, k))
        }),
    decreases active.len(),
{
    let n = active.len() as int;
    if n > limit {
        let keys = plain_keys(notes, active, classes, tick);
        let v = victim_of(notes, active, tick, true, keys, n);
        lemma_least(notes, active, classes, tick);
        let d = lemma_pigeons(notes, active, chord);
        law_doubled_gives_way(notes, active, classes, tick, d);
        let i = active[v] as int;
        let next = notes.update(i, giving_way(notes[i], tick));
        let fewer = active.remove(v);
        lemma_given_way(notes, active, tick, v, 640);
        assert forall|k: int| 0 <= k < fewer.len() implies chord.contains(
            #[trigger] pitch_at(next, fewer, k),
        ) by {
            assert(is_heard(notes, active, pitch_at(next, fewer, k)));
            let q = choose|q: int|
                0 <= q < active.len() && #[trigger] pitch_at(notes, active, q) == pitch_at(
                    next,
                    fewer,
                    k,
                );
            assert(chord.contains(pitch_at(notes, active, q)));
        }
        law_chord_keeps_pitches(next, fewer, classes, tick, limit, chord);
        let (rest, left) = thinned(notes, active, classes, tick, limit);
        lemma_sound_on(notes, next, rest, active, fewer, left);
        assert forall|k: int| 0 <= k < active.len() implies is_heard(
            rest,
            left,
            #[trigger] pitch_at(notes, active, k),
        ) by {
            let w = if k != v {
                k
            } else {
                choose|j: int|
                    0 <= j < n && j != v && #[trigger] pitch_at(notes, active, j) == pitch_at(
                        notes,
                        active,
                        v,
                    )
            };
            assert(pitch_at(notes, active, w) == pitch_at(notes, active, k));
            assert(is_heard(next, fewer, pitch_at(notes, active, w)));
            let q = choose|q: int|
                0 <= q < fewer.len() && #[trigger] pitch_at(next, fewer, q) == pitch_at(
                    notes,
                    active,
                    w,
                );
            assert(is_heard(rest, left, pitch_at(next, fewer, q)));
        }
    } else {
        assert forall|k: int| 0 <= k < active.len() implies is_heard(
            notes,
            active,
            #[trigger] pitch_at(notes, active, k),
        ) by {}
        assert forall|k: int| 0 <= k < active.len() implies active.contains(#[trigger] active[k]) by {}
    }
}

pub(crate) proof fn lemma_sound_on(
    notes: Seq<WorkingNote>,
    next: Seq<WorkingNote>,
    rest: Seq<WorkingNote>,
    active: Seq<usize>,
    fewer: Seq<usize>,
    left: Seq<usize>,
)
    requires
        sound_on(notes, next, active, fewer),
        sound_on(next, rest, fewer, left),
    ensures
        sound_on(notes, rest, active, left),
{
    assert forall|k: int| 0 <= k < left.len() implies active.contains(#[trigger] left[k])
        && rest[left[k] as int] == notes[left[k] as int] by {
        let q = choose|q: int| 0 <= q < fewer.len() && fewer[q] == left[k];
        assert(active.contains(fewer[q]));
        assert(next[fewer[q] as int] == notes[fewer[q] as int]);
    }
}

/// Where two notes or more may sound and none is worth fifteen more than another by itself, the
/// highest and the lowest pitch go on sounding.
pub proof fn law_outer_pitches_stay(
    notes: Seq<WorkingNote>,
    active: Seq<usize>,
    classes: Seq<bool>,
    tick: Tick,
    limit: int,
    k: int,
)
    requires
        are_sounding(notes, active),
        are_even(notes, active, 120),
        limit >= 2,
        0 <= k < active.len(),
        is_top(notes, active, k) || is_bottom(notes, active, k),
    ensures
        ({
            let (rest, left) = thinned(notes, active, classes, tick, limit);
            is_heard(rest, left, pitch_at(notes, active, k))
        }),
    decreases active.len(),
{
    let n = active.len() as int;
    if n > limit {
        let keys = plain_keys(notes, active, classes, tick);
        let v = victim_of(notes, active, tick, true, keys, n);
        lemma_least(notes, active, classes, tick);
        let i = active[v] as int;
        let next = notes.update(i, giving_way(notes[i], tick));
        let fewer = active.remove(v);
        lemma_given_way(notes, active, tick, v, 120);
        let w = if k != v {
            k
        } else if exists|j: int| 0 <= j < n && #[trigger] is_doubled(notes, active, j) {
            let d = choose|j: int| 0 <= j < n && #[trigger] is_doubled(notes, active, j);
            assert(are_even(notes, active, 640)) by {
                assert forall|a: int, b: int|
                    #![trigger active[a], active[b]]
                    0 <= a < active.len() && 0 <= b < active.len() implies base_at(notes, active, a)
                    < base_at(notes, active, b) + 8 * 80 by {
                    assert(base_at(notes, active, a) < base_at(notes, active, b) + 8 * 15);
                }
            }
            law_doubled_gives_way(notes, active, classes, tick, d);
            choose|j: int|
                0 <= j < n && j != v && #[trigger] pitch_at(notes, active, j) == pitch_at(
                    notes,
                    active,
                    v,
                )
        } else {
            law_inner_gives_way(notes, active, classes, tick);
            k
        };
        assert(w != v && pitch_at(notes, active, w) == pitch_at(notes, active, k));
        assert(is_heard(next, fewer, pitch_at(notes, active, w)));
        let q = choose|q: int|
            0 <= q < fewer.len() && #[trigger] pitch_at(next, fewer, q) == pitch_at(
                notes,
                active,
                w,
            );
        assert forall|j: int| 0 <= j < fewer.len() implies (is_top(notes, active, k) ==> #[trigger]
        pitch_at(next, fewer, j) <= pitch_at(next, fewer, q)) && (is_bottom(notes, active, k)
            ==> pitch_at(next, fewer, j) >= pitch_at(next, fewer, q)) by {
            assert(is_heard(notes, active, pitch_at(next, fewer, j)));
            let z = choose|z: int|
                0 <= z < active.len() && #[trigger] pitch_at(notes, active, z) == pitch_at(
                    next,
                    fewer,
                    j,
                );
            assert(pitch_at(notes, active, z) == pitch_at(next, fewer, j));
        }
        assert(is_top(notes, active, k) ==> is_top(next, fewer, q));
        assert(is_bottom(notes, active, k) ==> is_bottom(next, fewer, q));
        law_outer_pitches_stay(next, fewer, classes, tick, limit, q);
    } else {
        assert(pitch_at(notes, active, k) == pitch_at(notes, active, k));
    }
}

} // verus!
