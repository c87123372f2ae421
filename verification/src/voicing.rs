//! The voices of a source, how much they weigh, and how long they sound together.
use crate::order::{lemma_order_sorts, lemma_stable_sort, order, stable_sort, Key};
use crate::encode::slot_lists;
use crate::score::Note;
use vstd::prelude::*;

verus! {

/// A voice of the source.
pub type Source = (usize, usize);

/// Voices with one more note of the one that it comes from.
pub open spec fn with_voice(voices: Seq<(Source, Seq<usize>)>, source: Source, i: usize) -> Seq<
    (Source, Seq<usize>),
>
    decreases voices.len(),
{
    if voices.len() == 0 {
        seq![(source, seq![i])]
    } else if voices[0].0 == source {
        seq![(source, voices[0].1.push(i))] + voices.skip(1)
    } else {
        seq![voices[0]] + with_voice(voices.skip(1), source, i)
    }
}

/// The voices that the first notes come from, in the order in which they come up, with the
/// notes of each.
pub open spec fn voices_of(notes: Seq<Note>, kept: Seq<usize>, n: int) -> Seq<(Source, Seq<usize>)>
    decreases n,
{
    if n <= 0 {
        Seq::empty()
    } else {
        let i = kept[n - 1];
        with_voice(voices_of(notes, kept, n - 1), notes[i as int].src, i)
    }
}

pub open spec fn start_key(notes: Seq<Note>, i: usize) -> Key {
    (notes[i as int].on, 0i64, 0i64)
}

/// Notes in order of time.
pub open spec fn in_order(notes: Seq<Note>, ids: Seq<usize>) -> Seq<usize> {
    stable_sort(ids, |i: usize| start_key(notes, i))
}

/// Sorts notes by their start.
pub fn sort_by_start(notes: &Vec<Note>, ids: &Vec<usize>) -> (r: Vec<usize>)
    requires
        forall|k: int| 0 <= k < ids.len() ==> (#[trigger] ids[k]) < notes.len(),
    ensures
        r@ == in_order(notes@, ids@),
        r.len() == ids.len(),
        forall|k: int| 0 <= k < r.len() ==> (#[trigger] r[k]) < notes.len(),
{
    let mut keys: Vec<Key> = Vec::new();
    let mut i: usize = 0;
    while i < ids.len()
        invariant
            i <= ids.len(),
            keys.len() == i,
            forall|k: int| 0 <= k < ids.len() ==> (#[trigger] ids[k]) < notes.len(),
            forall|k: int| 0 <= k < i ==> #[trigger] keys[k] == start_key(notes@, ids[k]),
        decreases ids.len() - i,
    {
        proof {
            assert(ids[i as int] < notes.len());
        }
        keys.push((notes[ids[i]].on, 0, 0));
        i += 1;
    }
    let sequence = order(&keys);
    let ghost key = |i: usize| start_key(notes@, i);
    let ghost f = |k: usize| ids@[k as int];
    proof {
        lemma_order_sorts(ids@, keys@, key);
        lemma_stable_sort(ids@, key);
    }
    let mut r: Vec<usize> = Vec::new();
    let mut i: usize = 0;
    while i < sequence.len()
        invariant
            i <= sequence.len() == ids.len(),
            f == (|k: usize| ids@[k as int]),
            forall|k: int| 0 <= k < ids.len() ==> (#[trigger] ids[k]) < notes.len(),
            forall|k: int| 0 <= k < sequence.len() ==> (#[trigger] sequence[k]) < ids.len(),
            r@ == sequence@.take(i as int).map_values(f),
            forall|k: int| 0 <= k < r.len() ==> (#[trigger] r[k]) < notes.len(),
        decreases sequence.len() - i,
    {
        let at = sequence[i];
        proof {
            assert(ids[at as int] < notes.len());
        }
        r.push(ids[at]);
        i += 1;
        proof {
            assert(r@ =~= sequence@.take(i as int).map_values(f));
        }
    }
    proof {
        assert(sequence@.take(i as int) =~= sequence@);
    }
    r
}

proof fn lemma_with_voice(voices: Seq<(Source, Seq<usize>)>, source: Source, i: usize, k: int)
    requires
        0 <= k <= voices.len(),
        forall|j: int| 0 <= j < k ==> (#[trigger] voices[j]).0 != source,
    ensures
        k == voices.len() ==> with_voice(voices, source, i) == voices.push((source, seq![i])),
        k < voices.len() && voices[k].0 == source ==> with_voice(voices, source, i)
            == voices.update(k, (source, voices[k].1.push(i))),
    decreases k,
{
    if k > 0 {
        let rest = voices.skip(1);
        assert forall|j: int| 0 <= j < k - 1 implies (#[trigger] rest[j]).0 != source by {
            assert(rest[j] == voices[j + 1]);
        }
        assert(voices[0].0 != source);
        lemma_with_voice(rest, source, i, k - 1);
        if k == voices.len() {
            assert(seq![voices[0]] + rest.push((source, seq![i])) =~= voices.push(
                (source, seq![i]),
            ));
        } else if voices[k].0 == source {
            assert(rest[k - 1] == voices[k]);
            assert(seq![voices[0]] + rest.update(k - 1, (source, voices[k].1.push(i)))
                =~= voices.update(k, (source, voices[k].1.push(i))));
        }
    } else if voices.len() > 0 {
        if voices[0].0 == source {
            assert(seq![(source, voices[0].1.push(i))] + voices.skip(1) =~= voices.update(
                0,
                (source, voices[0].1.push(i)),
            ));
        }
    } else {
        assert(seq![(source, seq![i])] =~= voices.push((source, seq![i])));
    }
}

pub open spec fn voice_views(sources: Seq<Source>, groups: Seq<Vec<usize>>) -> Seq<
    (Source, Seq<usize>),
> {
    Seq::new(sources.len(), |i: int| (sources[i], groups[i]@))
}

/// The voices that notes come from, each in order of time.
pub open spec fn sorted_voices(notes: Seq<Note>, kept: Seq<usize>) -> Seq<Seq<usize>> {
    let voices = voices_of(notes, kept, kept.len() as int);
    Seq::new(voices.len(), |v: int| in_order(notes, voices[v].1))
}

/// Groups notes by the voice of the source that they come from, each in order of time.
#[verifier::rlimit(40)]
pub fn group_by_source(notes: &Vec<Note>, kept: &Vec<usize>) -> (r: Vec<Vec<usize>>)
    requires
        forall|k: int| 0 <= k < kept.len() ==> (#[trigger] kept[k]) < notes.len(),
    ensures
        slot_lists(r@) == sorted_voices(notes@, kept@),
        forall|s: int, k: int|
            #![trigger r[s]@[k]]
            0 <= s < r.len() && 0 <= k < r[s].len() ==> r[s]@[k] < notes.len(),
{
    let mut sources: Vec<Source> = Vec::new();
    let mut groups: Vec<Vec<usize>> = Vec::new();
    let mut n: usize = 0;
    proof {
        assert(voice_views(sources@, groups@) =~= Seq::<(Source, Seq<usize>)>::empty());
    }
    while n < kept.len()
        invariant
            n <= kept.len(),
            sources.len() == groups.len(),
            forall|k: int| 0 <= k < kept.len() ==> (#[trigger] kept[k]) < notes.len(),
            voice_views(sources@, groups@) == voices_of(notes@, kept@, n as int),
            forall|s: int, k: int|
                #![trigger groups[s]@[k]]
                0 <= s < groups.len() && 0 <= k < groups[s].len() ==> groups[s]@[k] < notes.len(),
        decreases kept.len() - n,
    {
        let i = kept[n];
        proof {
            assert(kept[n as int] < notes.len());
        }
        let source = notes[i].src;
        let ghost before = voice_views(sources@, groups@);
        let ghost old_groups = groups@;
        let mut k: usize = 0;
        while k < sources.len() && !(sources[k].0 == source.0 && sources[k].1 == source.1)
            invariant
                k <= sources.len(),
                before == voice_views(sources@, groups@),
                sources.len() == groups.len(),
                forall|j: int| 0 <= j < k ==> (#[trigger] before[j]).0 != source,
            decreases sources.len() - k,
        {
            proof {
                assert(before[k as int].0 == sources[k as int]);
            }
            k += 1;
        }
        proof {
            lemma_with_voice(before, source, i, k as int);
            if k < sources.len() {
                assert(before[k as int].0 == sources[k as int]);
            }
        }
        if k < sources.len() {
            groups[k].push(i);
            proof {
                assert(voice_views(sources@, groups@) =~= before.update(
                    k as int,
                    (source, before[k as int].1.push(i)),
                ));
            }
        } else {
            let mut one: Vec<usize> = Vec::new();
            one.push(i);
            sources.push(source);
            groups.push(one);
            proof {
                assert(one@ =~= seq![i]);
                assert(voice_views(sources@, groups@) =~= before.push((source, seq![i])));
            }
        }
        proof {
            assert forall|s: int, q: int|
                #![trigger groups[s]@[q]]
                0 <= s < groups.len() && 0 <= q < groups[s].len() implies groups[s]@[q]
                < notes.len() by {
                if s < old_groups.len() && q < old_groups[s].len() {
                    assert(groups[s]@[q] == old_groups[s]@[q]);
                    assert(old_groups[s]@[q] < notes.len());
                } else {
                    assert(groups[s]@[q] == i);
                }
            }
        }
        n += 1;
    }
    let ghost found = voice_views(sources@, groups@);
    let mut r: Vec<Vec<usize>> = Vec::new();
    let mut v: usize = 0;
    while v < groups.len()
        invariant
            v <= groups.len(),
            sources.len() == groups.len(),
            found == voice_views(sources@, groups@),
            forall|s: int, k: int|
                #![trigger groups[s]@[k]]
                0 <= s < groups.len() && 0 <= k < groups[s].len() ==> groups[s]@[k] < notes.len(),
            r.len() == v,
            forall|q: int| 0 <= q < v ==> (#[trigger] r[q])@ == in_order(notes@, found[q].1),
            forall|s: int, k: int|
                #![trigger r[s]@[k]]
                0 <= s < r.len() && 0 <= k < r[s].len() ==> r[s]@[k] < notes.len(),
        decreases groups.len() - v,
    {
        proof {
            assert(found[v as int].1 == groups[v as int]@);
            assert forall|k: int| 0 <= k < groups[v as int].len() implies (
            #[trigger] groups[v as int][k]) < notes.len() by {
                assert(groups[v as int]@[k] < notes.len());
            }
        }
        let one = sort_by_start(notes, &groups[v]);
        let ghost earlier = r@;
        r.push(one);
        proof {
            assert forall|s: int, k: int|
                #![trigger r[s]@[k]]
                0 <= s < r.len() && 0 <= k < r[s].len() implies r[s]@[k] < notes.len() by {
                if s < earlier.len() {
                    assert(r[s] == earlier[s]);
                    assert(earlier[s]@[k] < notes.len());
                } else {
                    assert(one[k] < notes.len());
                }
            }
        }
        v += 1;
    }
    proof {
        assert(slot_lists(r@) =~= sorted_voices(notes@, kept@));
    }
    r
}

/// For how long the first notes of a voice sound together.
pub open spec fn voice_weight(notes: Seq<Note>, ids: Seq<usize>, n: int) -> int
    decreases n,
{
    if n <= 0 {
        0
    } else {
        voice_weight(notes, ids, n - 1) + (notes[ids[n - 1] as int].off - notes[ids[n - 1] as int].on)
    }
}

/// Tells for how long the notes of a voice sound.
pub fn weigh_voice(notes: &Vec<Note>, ids: &Vec<usize>) -> (w: u128)
    requires
        forall|k: int| 0 <= k < ids.len() ==> (#[trigger] ids[k]) < notes.len(),
        forall|i: int| 0 <= i < notes.len() ==> 0 <= (#[trigger] notes[i]).on <= notes[i].off,
    ensures
        w == voice_weight(notes@, ids@, ids.len() as int),
        w <= ids.len() * 0x8000_0000_0000_0000,
{
    let mut w: u128 = 0;
    let mut k: usize = 0;
    while k < ids.len()
        invariant
            k <= ids.len(),
            forall|k: int| 0 <= k < ids.len() ==> (#[trigger] ids[k]) < notes.len(),
            forall|i: int| 0 <= i < notes.len() ==> 0 <= (#[trigger] notes[i]).on <= notes[i].off,
            w == voice_weight(notes@, ids@, k as int),
            w <= k * 0x8000_0000_0000_0000,
        decreases ids.len() - k,
    {
        let note = {
            proof {
                assert(ids[k as int] < notes.len());
                assert(0 <= notes[ids[k as int] as int].on <= notes[ids[k as int] as int].off);
            }
            notes[ids[k]]
        };
        w = w + (note.off - note.on) as u128;
        k += 1;
    }
    w
}

/// For how long two voices sound at once, from a place in each on: the voice whose note ends
/// first goes on.
pub open spec fn overlap_from(notes: Seq<Note>, a: Seq<usize>, b: Seq<usize>, i: int, j: int) -> int
    decreases a.len() - i + b.len() - j,
{
    if i < 0 || j < 0 || i >= a.len() || j >= b.len() {
        0
    } else {
        let x = notes[a[i] as int];
        let y = notes[b[j] as int];
        let lo = if x.on > y.on {
            x.on as int
        } else {
            y.on as int
        };
        let hi = if x.off < y.off {
            x.off as int
        } else {
            y.off as int
        };
        (if hi > lo {
            hi - lo
        } else {
            0
        }) + (if x.off < y.off {
            overlap_from(notes, a, b, i + 1, j)
        } else {
            overlap_from(notes, a, b, i, j + 1)
        })
    }
}

/// Tells for how long two voices sound at once.
pub fn overlap(notes: &Vec<Note>, a: &Vec<usize>, b: &Vec<usize>) -> (total: u128)
    requires
        forall|k: int| 0 <= k < a.len() ==> (#[trigger] a[k]) < notes.len(),
        forall|k: int| 0 <= k < b.len() ==> (#[trigger] b[k]) < notes.len(),
        forall|i: int| 0 <= i < notes.len() ==> 0 <= (#[trigger] notes[i]).on <= notes[i].off,
    ensures
        total == overlap_from(notes@, a@, b@, 0, 0),
{
    let mut i: usize = 0;
    let mut j: usize = 0;
    let mut total: u128 = 0;
    while i < a.len() && j < b.len()
        invariant
            i <= a.len(),
            j <= b.len(),
            forall|k: int| 0 <= k < a.len() ==> (#[trigger] a[k]) < notes.len(),
            forall|k: int| 0 <= k < b.len() ==> (#[trigger] b[k]) < notes.len(),
            forall|i: int| 0 <= i < notes.len() ==> 0 <= (#[trigger] notes[i]).on <= notes[i].off,
            total <= (i + j) * 0x8000_0000_0000_0000,
            overlap_from(notes@, a@, b@, 0, 0) == total + overlap_from(
                notes@,
                a@,
                b@,
                i as int,
                j as int,
            ),
        decreases a.len() - i + b.len() - j,
    {
        proof {
            assert(a[i as int] < notes.len());
            assert(b[j as int] < notes.len());
            assert(0 <= notes[a[i as int] as int].on <= notes[a[i as int] as int].off);
            assert(0 <= notes[b[j as int] as int].on <= notes[b[j as int] as int].off);
        }
        let x = notes[a[i]];
        let y = notes[b[j]];
        let lo = if x.on > y.on {
            x.on
        } else {
            y.on
        };
        let hi = if x.off < y.off {
            x.off
        } else {
            y.off
        };
        if hi > lo {
            total = total + (hi - lo) as u128;
        }
        if x.off < y.off {
            i += 1;
        } else {
            j += 1;
        }
    }
    total
}

} // verus!
