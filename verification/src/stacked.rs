//! What chords are made of.
use crate::harmony::{chord_classes, class_of, classes_of, is_clear, spells, ChordKind};
use vstd::prelude::*;

verus! {

/// Whether a chord is a triad: thirds of some semitones one on the other.
pub open spec fn is_triad(kind: ChordKind, lower: int, upper: int) -> bool {
    kind.third() == lower && kind.fifth() == lower + upper && kind.fourth() is None
}

/// Whether a chord is a triad with one more third on it.
pub open spec fn is_seventh(kind: ChordKind, triad: ChordKind, third: int) -> bool {
    kind.third() == triad.third() && kind.fifth() == triad.fifth() && kind.fourth() == Some(
        triad.fifth() + third,
    )
}

/// Triads and sevenths are stacks of thirds, of three semitones or four.
pub proof fn law_stacks_of_thirds()
    ensures
        is_triad(ChordKind::Major, 4, 3),
        is_triad(ChordKind::Minor, 3, 4),
        is_triad(ChordKind::Diminished, 3, 3),
        is_triad(ChordKind::Augmented, 4, 4),
        is_seventh(ChordKind::DominantSeventh, ChordKind::Major, 3),
        is_seventh(ChordKind::MajorSeventh, ChordKind::Major, 4),
        is_seventh(ChordKind::MinorSeventh, ChordKind::Minor, 3),
        is_seventh(ChordKind::MinorMajorSeventh, ChordKind::Minor, 4),
        is_seventh(ChordKind::HalfDiminishedSeventh, ChordKind::Diminished, 4),
        is_seventh(ChordKind::DiminishedSeventh, ChordKind::Diminished, 3),
{
}

/// The classes of a chord are those of its root and of the members above it, and no others.
pub proof fn law_chord_classes(root: int, kind: ChordKind, class: int)
    requires
        0 <= root < 12,
        0 <= class < 12,
    ensures
        chord_classes(root, kind)[class] <==> class == root || class == (root + kind.third()) % 12
            || class == (root + kind.fifth()) % 12 || (kind.fourth() is Some && class == (root
            + kind.fourth()->Some_0) % 12),
{
}

proof fn lemma_interval(class: int, root: int, shift: int)
    requires
        0 <= class < 12,
        0 <= root < 12,
        0 <= shift < 12,
    ensures
        (class - (root + shift) % 12) % 12 == ((class - root) % 12 - shift) % 12,
        0 <= (class - root) % 12 < 12,
{
}

proof fn lemma_other_name(root: int, kind: ChordKind, shift: int, other: ChordKind)
    requires
        0 <= root < 12,
        0 <= shift < 12,
        forall|x: int| 0 <= x < 12 ==> #[trigger] kind.has(x) == other.has((x - shift) % 12),
    ensures
        chord_classes(root, kind) == chord_classes((root + shift) % 12, other),
{
    let a = chord_classes(root, kind);
    let b = chord_classes((root + shift) % 12, other);
    assert forall|class: int| 0 <= class < 12 implies #[trigger] a[class] == b[class] by {
        lemma_interval(class, root, shift);
        assert(kind.has((class - root) % 12) == other.has(((class - root) % 12 - shift) % 12));
    }
    assert(a =~= b);
}

/// A chord in an inversion is another one: a sixth chord is the seventh chord on its sixth, one with
/// the second in place of the third is one with the fourth on its fifth; diminished sevenths and
/// augmented triads are the same on each of their members.
pub proof fn law_other_names(root: int)
    requires
        0 <= root < 12,
    ensures
        chord_classes(root, ChordKind::MajorSixth) == chord_classes(
            (root + 9) % 12,
            ChordKind::MinorSeventh,
        ),
        chord_classes(root, ChordKind::MinorSixth) == chord_classes(
            (root + 9) % 12,
            ChordKind::HalfDiminishedSeventh,
        ),
        chord_classes(root, ChordKind::SuspendedSecond) == chord_classes(
            (root + 7) % 12,
            ChordKind::SuspendedFourth,
        ),
        chord_classes(root, ChordKind::DiminishedSeventh) == chord_classes(
            (root + 3) % 12,
            ChordKind::DiminishedSeventh,
        ),
        chord_classes(root, ChordKind::Augmented) == chord_classes(
            (root + 4) % 12,
            ChordKind::Augmented,
        ),
{
    lemma_other_name(root, ChordKind::MajorSixth, 9, ChordKind::MinorSeventh);
    lemma_other_name(root, ChordKind::MinorSixth, 9, ChordKind::HalfDiminishedSeventh);
    lemma_other_name(root, ChordKind::SuspendedSecond, 7, ChordKind::SuspendedFourth);
    lemma_other_name(root, ChordKind::DiminishedSeventh, 3, ChordKind::DiminishedSeventh);
    lemma_other_name(root, ChordKind::Augmented, 4, ChordKind::Augmented);
}

/// What has more than one name is not clear: no augmented triad is, no diminished seventh, no minor
/// seventh and no half-diminished one.
pub proof fn law_unclear_chords(classes: Seq<bool>, root: int)
    requires
        0 <= root < 12,
    ensures
        !is_clear(classes, root, ChordKind::Augmented),
        !is_clear(classes, root, ChordKind::DiminishedSeventh),
        !is_clear(classes, root, ChordKind::MinorSeventh),
        !is_clear(classes, root, ChordKind::HalfDiminishedSeventh),
        !is_clear(classes, root, ChordKind::MajorSixth),
        !is_clear(classes, root, ChordKind::MinorSixth),
        !is_clear(classes, root, ChordKind::SuspendedSecond),
        !is_clear(classes, root, ChordKind::SuspendedFourth),
{
    law_other_names(root);
    let low = (root + 3) % 12;
    law_other_names(low);
    if is_clear(classes, root, ChordKind::Augmented) {
        assert(spells(classes, (root + 4) % 12, ChordKind::Augmented));
    }
    if is_clear(classes, root, ChordKind::DiminishedSeventh) {
        assert(spells(classes, (root + 3) % 12, ChordKind::DiminishedSeventh));
    }
    if is_clear(classes, root, ChordKind::MinorSeventh) {
        assert((low + 9) % 12 == root);
        assert(spells(classes, low, ChordKind::MajorSixth));
    }
    if is_clear(classes, root, ChordKind::HalfDiminishedSeventh) {
        assert((low + 9) % 12 == root);
        assert(spells(classes, low, ChordKind::MinorSixth));
    }
}

/// The octave of a pitch does not matter for its class, and the classes of some pitches are those
/// that one of them has.
pub proof fn law_classes(pitches: Seq<i32>, i: int, octaves: int)
    requires
        0 <= i < pitches.len(),
    ensures
        class_of(pitches[i] + 12 * octaves) == class_of(pitches[i] as int),
        0 <= class_of(pitches[i] as int) < 12,
        classes_of(pitches)[class_of(pitches[i] as int)],
        forall|class: int|
            0 <= class < 12 && #[trigger] classes_of(pitches)[class] ==> exists|k: int|
                0 <= k < pitches.len() && (#[trigger] pitches[k] - class) % 12 == 0,
{
    assert forall|class: int| 0 <= class < 12 && #[trigger] classes_of(pitches)[class] implies exists|k: int|
        0 <= k < pitches.len() && (#[trigger] pitches[k] - class) % 12 == 0 by {
        let k = choose|k: int| 0 <= k < pitches.len() && class_of(#[trigger] pitches[k] as int) == class;
        assert((pitches[k] - class) % 12 == 0);
    }
}

} // verus!
