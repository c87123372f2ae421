//! Which voices there are, and which come first.
use crate::order::{indices, key_less, lemma_stable_sort};
use crate::score::Note;
use crate::seating::{by_weight, weight_key, weight_keys};
use crate::voicing::{voice_weight, voices_of, with_voice, Source};
use vstd::prelude::*;

verus! {

/// How long the notes of a voice sound.
pub open spec fn length_of(notes: Seq<Note>, ids: Seq<usize>) -> int
    decreases ids.len(),
{
    if ids.len() == 0 {
        0
    } else {
        let note = notes[ids.last() as int];
        length_of(notes, ids.drop_last()) + (note.off - note.on)
    }
}

proof fn lemma_length(notes: Seq<Note>, ids: Seq<usize>, n: int)
    requires
        0 <= n <= ids.len(),
    ensures
        voice_weight(notes, ids, n) == length_of(notes, ids.take(n)),
    decreases n,
{
    if n > 0 {
        lemma_length(notes, ids, n - 1);
        assert(ids.take(n).drop_last() =~= ids.take(n - 1));
    }
}

proof fn lemma_weight_key(a: int, b: int)
    requires
        0 <= a <= 0x7fff_ffff_ffff_ffff * 0x8000_0000_0000_0000,
        0 <= b <= 0x7fff_ffff_ffff_ffff * 0x8000_0000_0000_0000,
    ensures
        key_less(weight_key(a), weight_key(b)) <==> a > b,
{
    let k = 0x8000_0000_0000_0000;
    assert(0 <= a / k < k && 0 <= b / k < k);
    assert((a / k) / k == 0 && (b / k) / k == 0);
    assert((a / k) % k == a / k && (b / k) % k == b / k);
    assert(a == k * (a / k) + a % k && b == k * (b / k) + b % k);
    assert(0 <= a % k < k && 0 <= b % k < k);
}

/// The voices that sound for longest come first, and each comes up.
pub proof fn law_heaviest_voices_first(notes: Seq<Note>, voices: Seq<Seq<usize>>, i: int, j: int, v: usize)
    requires
        voices.len() <= usize::MAX,
        forall|k: int|
            0 <= k < voices.len() ==> 0 <= length_of(notes, #[trigger] voices[k])
                <= 0x7fff_ffff_ffff_ffff * 0x8000_0000_0000_0000,
        0 <= i < j < voices.len(),
    ensures
        by_weight(notes, voices).len() == voices.len(),
        by_weight(notes, voices)[i] < voices.len(),
        by_weight(notes, voices)[j] < voices.len(),
        length_of(notes, voices[by_weight(notes, voices)[i] as int]) >= length_of(
            notes,
            voices[by_weight(notes, voices)[j] as int],
        ),
        v < voices.len() ==> by_weight(notes, voices).contains(v),
{
    let keys = weight_keys(notes, voices);
    let key = |i: usize| keys[i as int];
    let places = indices(keys.len());
    lemma_stable_sort(places, key);
    let sorted = by_weight(notes, voices);
    assert(places.contains(sorted[i]) && places.contains(sorted[j]));
    let p = choose|m: int| 0 <= m < places.len() && places[m] == sorted[i];
    let q = choose|m: int| 0 <= m < places.len() && places[m] == sorted[j];
    assert(sorted[i] == p as usize && sorted[j] == q as usize);
    let a = voices[sorted[i] as int];
    let b = voices[sorted[j] as int];
    lemma_length(notes, a, a.len() as int);
    lemma_length(notes, b, b.len() as int);
    assert(a.take(a.len() as int) =~= a);
    assert(b.take(b.len() as int) =~= b);
    assert(!key_less(key(sorted[j]), key(sorted[i])));
    lemma_weight_key(length_of(notes, b), length_of(notes, a));
    if v < voices.len() {
        assert(places[v as int] == v);
        assert(sorted.contains(places[v as int]));
    }
}

/// Whether a note is in the voice that comes from a source.
pub open spec fn is_in_voice(voices: Seq<(Source, Seq<usize>)>, source: Source, i: usize) -> bool {
    exists|v: int|
        0 <= v < voices.len() && (#[trigger] voices[v]).0 == source && voices[v].1.contains(i)
}

/// Whether no two voices come from one source.
pub open spec fn sources_differ(voices: Seq<(Source, Seq<usize>)>) -> bool {
    forall|v: int, w: int|
        #![trigger voices[v], voices[w]]
        0 <= v < voices.len() && 0 <= w < voices.len() && v != w ==> voices[v].0 != voices[w].0
}

proof fn lemma_with_voice(voices: Seq<(Source, Seq<usize>)>, source: Source, i: usize, other: Source, x: usize)
    requires
        sources_differ(voices),
    ensures
        is_in_voice(with_voice(voices, source, i), other, x) <==> is_in_voice(voices, other, x) || (other
            == source && x == i),
        sources_differ(with_voice(voices, source, i)),
        forall|v: int|
            0 <= v < with_voice(voices, source, i).len() ==> (#[trigger] with_voice(voices, source, i)[v]).0
                == source || exists|w: int|
                0 <= w < voices.len() && (#[trigger] voices[w]).0 == with_voice(voices, source, i)[v].0,
    decreases voices.len(),
{
    let new = with_voice(voices, source, i);
    if voices.len() == 0 {
        assert(new[0].1[0] == i);
        if is_in_voice(new, other, x) {
            let v = choose|v: int| 0 <= v < new.len() && (#[trigger] new[v]).0 == other && new[v].1.contains(x);
            let k = choose|k: int| 0 <= k < new[v].1.len() && new[v].1[k] == x;
        }
        if other == source && x == i {
            assert(new[0].1.contains(i));
        }
    } else if voices[0].0 == source {
        let old_ids = voices[0].1;
        let ids = old_ids.push(i);
        assert(new[0] == (source, ids));
        assert forall|v: int| 0 < v < new.len() implies #[trigger] new[v] == voices[v] by {}
        assert(ids.contains(x) <==> old_ids.contains(x) || x == i) by {
            assert(ids[old_ids.len() as int] == i);
            if old_ids.contains(x) {
                let k = choose|k: int| 0 <= k < old_ids.len() && old_ids[k] == x;
                assert(ids[k] == x);
            }
            if ids.contains(x) && x != i {
                let k = choose|k: int| 0 <= k < ids.len() && ids[k] == x;
                assert(old_ids[k] == x);
            }
        }
        if is_in_voice(new, other, x) {
            let v = choose|v: int| 0 <= v < new.len() && (#[trigger] new[v]).0 == other && new[v].1.contains(x);
            assert(voices[v].0 == other);
        }
        if is_in_voice(voices, other, x) {
            let v = choose|v: int|
                0 <= v < voices.len() && (#[trigger] voices[v]).0 == other && voices[v].1.contains(x);
            assert(new[v].0 == other);
        }
        if other == source && x == i {
            assert(new[0].0 == other && new[0].1.contains(x));
        }
        assert forall|v: int, w: int|
            #![trigger new[v], new[w]]
            0 <= v < new.len() && 0 <= w < new.len() && v != w implies new[v].0 != new[w].0 by {
            assert(voices[v].0 != voices[w].0);
        }
        assert forall|v: int| 0 <= v < new.len() implies (#[trigger] new[v]).0 == source || exists|w: int|
            0 <= w < voices.len() && (#[trigger] voices[w]).0 == new[v].0 by {
            assert(voices[v].0 == new[v].0);
        }
    } else {
        let rest = voices.skip(1);
        assert(sources_differ(rest)) by {
            assert forall|v: int, w: int|
                #![trigger rest[v], rest[w]]
                0 <= v < rest.len() && 0 <= w < rest.len() && v != w implies rest[v].0 != rest[w].0 by {
                assert(voices[v + 1].0 != voices[w + 1].0);
            }
        }
        lemma_with_voice(rest, source, i, other, x);
        let inner = with_voice(rest, source, i);
        assert forall|v: int| 0 < v < new.len() implies #[trigger] new[v] == inner[v - 1] by {}
        if is_in_voice(new, other, x) {
            let v = choose|v: int| 0 <= v < new.len() && (#[trigger] new[v]).0 == other && new[v].1.contains(x);
            if v == 0 {
                assert(voices[0].0 == other);
            } else {
                assert(inner[v - 1].0 == other);
            }
        }
        if is_in_voice(rest, other, x) {
            let v = choose|v: int|
                0 <= v < rest.len() && (#[trigger] rest[v]).0 == other && rest[v].1.contains(x);
            assert(voices[v + 1].0 == other);
        }
        if is_in_voice(voices, other, x) {
            let v = choose|v: int|
                0 <= v < voices.len() && (#[trigger] voices[v]).0 == other && voices[v].1.contains(x);
            if v == 0 {
                assert(new[0].0 == other);
            } else {
                assert(rest[v - 1].0 == other);
            }
        }
        if is_in_voice(inner, other, x) {
            let v = choose|v: int|
                0 <= v < inner.len() && (#[trigger] inner[v]).0 == other && inner[v].1.contains(x);
            assert(new[v + 1].0 == other);
        }
        assert forall|v: int| 0 <= v < new.len() implies (#[trigger] new[v]).0 == source || exists|w: int|
            0 <= w < voices.len() && (#[trigger] voices[w]).0 == new[v].0 by {
            if v == 0 {
                assert(voices[0].0 == new[v].0);
            } else if inner[v - 1].0 != source {
                let w = choose|w: int| 0 <= w < rest.len() && (#[trigger] rest[w]).0 == inner[v - 1].0;
                assert(voices[w + 1].0 == new[v].0);
            }
        }
        assert forall|v: int, w: int|
            #![trigger new[v], new[w]]
            0 <= v < new.len() && 0 <= w < new.len() && v != w implies new[v].0 != new[w].0 by {
            if v > 0 && w > 0 {
                assert(inner[v - 1].0 != inner[w - 1].0);
            } else {
                let y = if v > 0 {
                    v
                } else {
                    w
                };
                if inner[y - 1].0 != source {
                    let z = choose|z: int| 0 <= z < rest.len() && (#[trigger] rest[z]).0 == inner[y - 1].0;
                    assert(rest[z] == voices[z + 1]);
                    assert(voices[0].0 != voices[z + 1].0);
                }
            }
        }
    }
}

/// The voices hold the notes that are kept, each in the one of the source that it comes from and in no
/// other, and there is one voice for a source.
pub proof fn law_voices_by_source(notes: Seq<Note>, kept: Seq<usize>, n: int, source: Source, i: usize)
    requires
        0 <= n <= kept.len(),
    ensures
        is_in_voice(voices_of(notes, kept, n), source, i) <==> (exists|k: int|
            0 <= k < n && #[trigger] kept[k] == i) && notes[i as int].src == source,
        sources_differ(voices_of(notes, kept, n)),
    decreases n,
{
    if n > 0 {
        law_voices_by_source(notes, kept, n - 1, source, i);
        let last = kept[n - 1];
        lemma_with_voice(
            voices_of(notes, kept, n - 1),
            notes[last as int].src,
            last,
            source,
            i,
        );
        if exists|k: int| 0 <= k < n && #[trigger] kept[k] == i {
            let k = choose|k: int| 0 <= k < n && #[trigger] kept[k] == i;
            if k < n - 1 {
                assert(kept[k] == i);
            }
        }
    }
}

} // verus!
