//! Chords that a set of pitches spells, and what each of their members is worth.
use vstd::prelude::*;

verus! {

#[derive(Clone, Copy, Debug, PartialEq, Eq, Structural)]
pub enum ChordKind {
    Major,
    Minor,
    Diminished,
    Augmented,
    DominantSeventh,
    MajorSeventh,
    MinorSeventh,
    MinorMajorSeventh,
    HalfDiminishedSeventh,
    DiminishedSeventh,
    MajorSixth,
    MinorSixth,
    SuspendedSecond,
    SuspendedFourth,
}

/// The number of kinds of chords.
pub const KINDS: usize = 14;

/// The kind of chord with a number.
pub open spec fn kind_at(i: int) -> ChordKind {
    if i <= 0 {
        ChordKind::Major
    } else if i == 1 {
        ChordKind::Minor
    } else if i == 2 {
        ChordKind::Diminished
    } else if i == 3 {
        ChordKind::Augmented
    } else if i == 4 {
        ChordKind::DominantSeventh
    } else if i == 5 {
        ChordKind::MajorSeventh
    } else if i == 6 {
        ChordKind::MinorSeventh
    } else if i == 7 {
        ChordKind::MinorMajorSeventh
    } else if i == 8 {
        ChordKind::HalfDiminishedSeventh
    } else if i == 9 {
        ChordKind::DiminishedSeventh
    } else if i == 10 {
        ChordKind::MajorSixth
    } else if i == 11 {
        ChordKind::MinorSixth
    } else if i == 12 {
        ChordKind::SuspendedSecond
    } else {
        ChordKind::SuspendedFourth
    }
}

fn kind_number(i: usize) -> (kind: ChordKind)
    ensures
        kind == kind_at(i as int),
{
    match i {
        0 => ChordKind::Major,
        1 => ChordKind::Minor,
        2 => ChordKind::Diminished,
        3 => ChordKind::Augmented,
        4 => ChordKind::DominantSeventh,
        5 => ChordKind::MajorSeventh,
        6 => ChordKind::MinorSeventh,
        7 => ChordKind::MinorMajorSeventh,
        8 => ChordKind::HalfDiminishedSeventh,
        9 => ChordKind::DiminishedSeventh,
        10 => ChordKind::MajorSixth,
        11 => ChordKind::MinorSixth,
        12 => ChordKind::SuspendedSecond,
        _ => ChordKind::SuspendedFourth,
    }
}

impl ChordKind {
    /// The third of a chord, or what stands in for it, above the root.
    pub open spec fn third(self) -> int {
        match self {
            ChordKind::Major | ChordKind::Augmented | ChordKind::DominantSeventh
            | ChordKind::MajorSeventh | ChordKind::MajorSixth => 4,
            ChordKind::SuspendedSecond => 2,
            ChordKind::SuspendedFourth => 5,
            _ => 3,
        }
    }

    /// The fifth of a chord above the root.
    pub open spec fn fifth(self) -> int {
        match self {
            ChordKind::Diminished | ChordKind::HalfDiminishedSeventh
            | ChordKind::DiminishedSeventh => 6,
            ChordKind::Augmented => 8,
            _ => 7,
        }
    }

    /// The fourth member of a chord above the root, where it has one.
    pub open spec fn fourth(self) -> Option<int> {
        match self {
            ChordKind::DominantSeventh | ChordKind::MinorSeventh
            | ChordKind::HalfDiminishedSeventh => Some(10),
            ChordKind::MajorSeventh | ChordKind::MinorMajorSeventh => Some(11),
            ChordKind::DiminishedSeventh | ChordKind::MajorSixth | ChordKind::MinorSixth => Some(
                9,
            ),
            _ => None,
        }
    }

    /// Whether a chord has a member at an interval above its root.
    pub open spec fn has(self, interval: int) -> bool {
        interval == 0 || interval == self.third() || interval == self.fifth() || self.fourth()
            == Some(interval)
    }

    /// Whether a reading as this kind counts, and does not only make others ambiguous.
    pub open spec fn counts(self) -> bool {
        !(self is MajorSixth || self is MinorSixth || self is SuspendedSecond
            || self is SuspendedFourth)
    }

    /// The intervals of the members above the root, in order.
    pub fn intervals(self) -> (list: Vec<u8>)
        ensures
            list.len() == (if self.fourth() is Some {
                4int
            } else {
                3int
            }),
            list[0] == 0,
            list[1] == self.third(),
            list[2] == self.fifth(),
            list.len() == 4 ==> self.fourth() == Some(list[3] as int),
    {
        match self {
            ChordKind::Major => vec![0, 4, 7],
            ChordKind::Minor => vec![0, 3, 7],
            ChordKind::Diminished => vec![0, 3, 6],
            ChordKind::Augmented => vec![0, 4, 8],
            ChordKind::DominantSeventh => vec![0, 4, 7, 10],
            ChordKind::MajorSeventh => vec![0, 4, 7, 11],
            ChordKind::MinorSeventh => vec![0, 3, 7, 10],
            ChordKind::MinorMajorSeventh => vec![0, 3, 7, 11],
            ChordKind::HalfDiminishedSeventh => vec![0, 3, 6, 10],
            ChordKind::DiminishedSeventh => vec![0, 3, 6, 9],
            ChordKind::MajorSixth => vec![0, 4, 7, 9],
            ChordKind::MinorSixth => vec![0, 3, 7, 9],
            ChordKind::SuspendedSecond => vec![0, 2, 7],
            ChordKind::SuspendedFourth => vec![0, 5, 7],
        }
    }

    pub fn can_score(self) -> (r: bool)
        ensures
            r == self.counts(),
    {
        !matches!(
            self,
            ChordKind::MajorSixth
                | ChordKind::MinorSixth
                | ChordKind::SuspendedSecond
                | ChordKind::SuspendedFourth
        )
    }
}

/// The class of a pitch: its place above the next lower C.
pub open spec fn class_of(pitch: int) -> int {
    pitch % 12
}

pub fn pitch_class(pitch: i32) -> (class: u8)
    ensures
        class == class_of(pitch as int),
        class < 12,
{
    let r: i64 = pitch as i64 % 12;
    if r < 0 {
        (r + 12) as u8
    } else {
        r as u8
    }
}

/// Whether one of some pitches is of a class.
pub open spec fn sounds(pitches: Seq<i32>, class: int) -> bool {
    exists|i: int| 0 <= i < pitches.len() && class_of(#[trigger] pitches[i] as int) == class
}

/// The classes of some pitches.
pub open spec fn classes_of(pitches: Seq<i32>) -> Seq<bool> {
    Seq::new(12, |class: int| sounds(pitches, class))
}

/// The classes of a chord on a root.
pub open spec fn chord_classes(root: int, kind: ChordKind) -> Seq<bool> {
    Seq::new(12, |class: int| kind.has((class - root) % 12))
}

/// Whether classes spell a chord on a root.
pub open spec fn spells(classes: Seq<bool>, root: int, kind: ChordKind) -> bool {
    0 <= root < 12 && classes == chord_classes(root, kind)
}

/// How many of the first classes sound.
pub open spec fn class_count(classes: Seq<bool>, n: int) -> int
    decreases n,
{
    if n <= 0 {
        0
    } else {
        class_count(classes, n - 1) + (if classes[n - 1] {
            1int
        } else {
            0int
        })
    }
}

/// The first classes as a number with a bit for each.
pub open spec fn mask_of(classes: Seq<bool>, n: int) -> int
    decreases n,
{
    if n <= 0 {
        0
    } else {
        mask_of(classes, n - 1) + (if classes[n - 1] {
            vstd::arithmetic::power2::pow2((n - 1) as nat) as int
        } else {
            0int
        })
    }
}

/// Whether classes spell one chord only, and that one counts.
pub open spec fn is_clear(classes: Seq<bool>, root: int, kind: ChordKind) -> bool {
    &&& 3 <= class_count(classes, 12) <= 4
    &&& spells(classes, root, kind)
    &&& kind.counts()
    &&& forall|r: int, k: ChordKind| #[trigger] spells(classes, r, k) ==> r == root && k == kind
}

/// A chord that pitches spell.
#[derive(Debug)]
pub struct Harmony {
    root: u8,
    classes: Vec<bool>,
    kind: ChordKind,
}

/// What it is worth, in hundredths, to keep a pitch of a chord.
pub open spec fn member_worth(root: int, kind: ChordKind, pitch: int) -> int {
    let interval = (class_of(pitch) - root) % 12;
    if interval == 0 {
        65
    } else if interval == kind.third() || kind.fourth() == Some(interval) {
        100
    } else if interval == kind.fifth() {
        if interval == 7 {
            25
        } else {
            100
        }
    } else {
        0
    }
}

/// What the first of some classes of a chord are worth together.
pub open spec fn classes_worth(root: int, kind: ChordKind, classes: Seq<bool>, n: int) -> int
    decreases n,
{
    if n <= 0 {
        0
    } else {
        classes_worth(root, kind, classes, n - 1) + (if classes[n - 1] && chord_classes(
            root,
            kind,
        )[n - 1] {
            member_worth(root, kind, n - 1)
        } else {
            0
        })
    }
}

impl Harmony {
    pub closed spec fn root_class(self) -> int {
        self.root as int
    }

    pub closed spec fn chord(self) -> ChordKind {
        self.kind
    }

    /// Whether the classes are those of the chord.
    pub closed spec fn valid(self) -> bool {
        self.root < 12 && self.classes@ == chord_classes(self.root as int, self.kind)
    }

    /// The class of the root, whatever pitch is the lowest.
    pub fn root(&self) -> (root: u8)
        requires
            self.valid(),
        ensures
            root == self.root_class(),
            root < 12,
    {
        self.root
    }

    /// Whether a class belongs to the chord.
    pub fn has_class(&self, class: u8) -> (r: bool)
        requires
            self.valid(),
            class < 12,
        ensures
            r == chord_classes(self.root_class(), self.chord())[class as int],
    {
        self.classes[class as usize]
    }

    /// The classes of the chord as a number with a bit for each.
    pub fn mask(&self) -> (mask: u16)
        requires
            self.valid(),
        ensures
            mask == mask_of(chord_classes(self.root_class(), self.chord()), 12),
    {
        class_mask(&self.classes)
    }

    /// What it is worth, in hundredths, to keep a pitch that the chord has not got yet.
    pub fn weight(&self, pitch: i32) -> (hundredths: u32)
        requires
            self.valid(),
        ensures
            hundredths == member_worth(self.root_class(), self.chord(), pitch as int),
            hundredths <= 100,
    {
        let interval: u8 = (pitch_class(pitch) + 12 - self.root) % 12;
        proof {
            let c = class_of(pitch as int);
            let r = self.root as int;
            assert((c + 12 - r) % 12 == (c - r) % 12);
        }
        let intervals = self.kind.intervals();
        if interval == 0 {
            65
        } else if interval == intervals[1] || (intervals.len() == 4 && interval == intervals[3]) {
            100
        } else if interval == intervals[2] {
            if interval == 7 {
                25
            } else {
                100
            }
        } else {
            0
        }
    }

    /// What some classes are worth together, in hundredths; an octave adds nothing.
    pub fn coverage(&self, classes: &Vec<bool>) -> (hundredths: u32)
        requires
            self.valid(),
            classes.len() == 12,
        ensures
            hundredths == classes_worth(self.root_class(), self.chord(), classes@, 12),
    {
        let mut total: u32 = 0;
        let mut i: usize = 0;
        while i < 12
            invariant
                i <= 12,
                self.valid(),
                classes.len() == 12,
                total == classes_worth(self.root_class(), self.chord(), classes@, i as int),
                total <= 100 * i,
            decreases 12 - i,
        {
            if classes[i] && self.classes[i] {
                proof {
                    assert(class_of(i as int) == i as int);
                }
                total = total + self.weight(i as i32);
            }
            i += 1;
        }
        total
    }
}

fn bit(i: usize) -> (b: u16)
    requires
        i < 12,
    ensures
        b == vstd::arithmetic::power2::pow2(i as nat),
{
    proof {
        vstd::arithmetic::power2::lemma2_to64();
    }
    match i {
        0 => 1,
        1 => 2,
        2 => 4,
        3 => 8,
        4 => 16,
        5 => 32,
        6 => 64,
        7 => 128,
        8 => 256,
        9 => 512,
        10 => 1024,
        _ => 2048,
    }
}

/// Classes as a number with a bit for each.
pub fn class_mask(classes: &Vec<bool>) -> (mask: u16)
    requires
        classes.len() == 12,
    ensures
        mask == mask_of(classes@, 12),
{
    let mut mask: u16 = 0;
    let mut i: usize = 0;
    proof {
        vstd::arithmetic::power2::lemma2_to64();
    }
    while i < 12
        invariant
            i <= 12,
            classes.len() == 12,
            mask == mask_of(classes@, i as int),
            mask < vstd::arithmetic::power2::pow2(i as nat),
            i == 0 ==> mask == 0,
        decreases 12 - i,
    {
        proof {
            vstd::arithmetic::power2::lemma2_to64();
            vstd::arithmetic::power2::lemma_pow2_unfold((i + 1) as nat);
            if i < 11 {
                vstd::arithmetic::power2::lemma_pow2_strictly_increases(i as nat, 11);
            }
        }
        if classes[i] {
            mask = mask + bit(i);
        }
        i += 1;
    }
    mask
}

/// The classes of some pitches.
pub fn pitch_classes(pitches: &[i32]) -> (classes: Vec<bool>)
    ensures
        classes@ == classes_of(pitches@),
        classes.len() == 12,
{
    let mut classes: Vec<bool> = Vec::new();
    let mut i: usize = 0;
    while i < 12
        invariant
            i <= 12,
            classes.len() == i,
            forall|k: int| 0 <= k < i ==> !#[trigger] classes[k],
        decreases 12 - i,
    {
        classes.push(false);
        i += 1;
    }
    let mut i: usize = 0;
    while i < pitches.len()
        invariant
            i <= pitches.len(),
            classes.len() == 12,
            forall|k: int| 0 <= k < 12 ==> #[trigger] classes[k] == sounds(pitches@.take(i as int), k),
        decreases pitches.len() - i,
    {
        let class = pitch_class(pitches[i]);
        let ghost before = classes@;
        classes.set(class as usize, true);
        proof {
            let now = pitches@.take(i + 1);
            let old_pitches = pitches@.take(i as int);
            assert forall|k: int| 0 <= k < 12 implies #[trigger] classes[k] == sounds(now, k) by {
                if before[k] {
                    let j = choose|j: int|
                        0 <= j < old_pitches.len() && class_of(#[trigger] old_pitches[j] as int)
                            == k;
                    assert(class_of(now[j] as int) == k);
                }
                if k == class {
                    assert(class_of(now[i as int] as int) == k);
                }
                if sounds(now, k) {
                    let j = choose|j: int|
                        0 <= j < now.len() && class_of(#[trigger] now[j] as int) == k;
                    if j < i {
                        assert(class_of(old_pitches[j] as int) == k);
                    }
                }
            }
        }
        i += 1;
    }
    proof {
        assert(pitches@.take(i as int) =~= pitches@);
        assert(classes@ =~= classes_of(pitches@));
    }
    classes
}

/// The classes of a chord.
fn make_chord(root: u8, kind: ChordKind) -> (classes: Vec<bool>)
    requires
        root < 12,
    ensures
        classes@ == chord_classes(root as int, kind),
{
    let intervals = kind.intervals();
    let mut classes: Vec<bool> = Vec::new();
    let mut i: u8 = 0;
    while i < 12
        invariant
            i <= 12,
            root < 12,
            intervals.len() == (if kind.fourth() is Some {
                4int
            } else {
                3int
            }),
            intervals[1] == kind.third(),
            intervals[2] == kind.fifth(),
            intervals.len() == 4 ==> kind.fourth() == Some(intervals[3] as int),
            classes.len() == i,
            forall|k: int| 0 <= k < i ==> #[trigger] classes[k] == kind.has((k - root) % 12),
        decreases 12 - i,
    {
        let interval: u8 = (i + 12 - root) % 12;
        proof {
            assert((i + 12 - root) % 12 == (i - root) % 12);
        }
        let member = interval == 0 || interval == intervals[1] || interval == intervals[2] || (
        intervals.len() == 4 && interval == intervals[3]);
        classes.push(member);
        i += 1;
    }
    proof {
        assert(classes@ =~= chord_classes(root as int, kind));
    }
    classes
}

fn same_classes(a: &Vec<bool>, b: &Vec<bool>) -> (r: bool)
    requires
        a.len() == 12,
        b.len() == 12,
    ensures
        r == (a@ == b@),
{
    let mut i: usize = 0;
    while i < 12
        invariant
            i <= 12,
            a.len() == 12,
            b.len() == 12,
            forall|k: int| 0 <= k < i ==> a@[k] == b@[k],
        decreases 12 - i,
    {
        if a[i] != b[i] {
            proof {
                assert(a@[i as int] != b@[i as int]);
            }
            return false;
        }
        i += 1;
    }
    proof {
        assert(a@ =~= b@);
    }
    true
}

/// The number of a reading: its root and kind.
spec fn read_at(classes: Seq<bool>, n: int) -> bool {
    spells(classes, n / 14, kind_at(n % 14))
}

proof fn lemma_kind_number(k: ChordKind) -> (i: int)
    ensures
        0 <= i < 14,
        kind_at(i) == k,
{
    match k {
        ChordKind::Major => 0,
        ChordKind::Minor => 1,
        ChordKind::Diminished => 2,
        ChordKind::Augmented => 3,
        ChordKind::DominantSeventh => 4,
        ChordKind::MajorSeventh => 5,
        ChordKind::MinorSeventh => 6,
        ChordKind::MinorMajorSeventh => 7,
        ChordKind::HalfDiminishedSeventh => 8,
        ChordKind::DiminishedSeventh => 9,
        ChordKind::MajorSixth => 10,
        ChordKind::MinorSixth => 11,
        ChordKind::SuspendedSecond => 12,
        ChordKind::SuspendedFourth => 13,
    }
}

proof fn lemma_kind_injective(i: int, j: int)
    requires
        0 <= i < 14,
        0 <= j < 14,
        kind_at(i) == kind_at(j),
    ensures
        i == j,
{
}

/// Reads pitches as a chord, where they spell one only and it counts.
pub fn analyze(pitches: &[i32]) -> (r: Option<Harmony>)
    ensures
        match r {
            Some(h) => h.valid() && is_clear(classes_of(pitches@), h.root_class(), h.chord()),
            None => forall|root: int, kind: ChordKind| !#[trigger]
                is_clear(classes_of(pitches@), root, kind),
        },
{
    let classes = pitch_classes(pitches);
    let mut count: u8 = 0;
    let mut i: usize = 0;
    while i < 12
        invariant
            i <= 12,
            classes.len() == 12,
            count == class_count(classes@, i as int),
            count <= i,
        decreases 12 - i,
    {
        if classes[i] {
            count += 1;
        }
        i += 1;
    }
    if count < 3 || count > 4 {
        return None;
    }
    let mut found: Option<usize> = None;
    let mut n: usize = 0;
    while n < 168
        invariant
            n <= 168,
            classes.len() == 12,
            classes@ == classes_of(pitches@),
            match found {
                Some(f) => f < n && read_at(classes@, f as int) && forall|k: int|
                    0 <= k < n && #[trigger] read_at(classes@, k) ==> k == f,
                None => forall|k: int| 0 <= k < n ==> !#[trigger] read_at(classes@, k),
            },
        decreases 168 - n,
    {
        let root: u8 = (n / 14) as u8;
        let kind = kind_number(n % 14);
        if same_classes(&make_chord(root, kind), &classes) {
            proof {
                assert(read_at(classes@, n as int));
            }
            match found {
                Some(f) => {
                    proof {
                        assert forall|r: int, k: ChordKind| !#[trigger]
                            is_clear(classes@, r, k) by {
                            if is_clear(classes@, r, k) {
                                assert(spells(classes@, n as int / 14, kind_at(n as int % 14)));
                                assert(spells(classes@, f as int / 14, kind_at(f as int % 14)));
                                lemma_kind_injective(n as int % 14, f as int % 14);
                                assert(false);
                            }
                        }
                    }
                    return None;
                },
                None => {
                    found = Some(n);
                },
            }
        } else {
            proof {
                assert(!read_at(classes@, n as int));
            }
        }
        n += 1;
    }
    proof {
        assert forall|r: int, k: ChordKind| #[trigger] spells(classes@, r, k) implies found is Some
            && found->Some_0 / 14 == r && kind_at(found->Some_0 as int % 14) == k by {
            let i = lemma_kind_number(k);
            let m = r * 14 + i;
            assert(m / 14 == r && m % 14 == i);
            assert(read_at(classes@, m));
        }
    }
    match found {
        None => None,
        Some(f) => {
            let root: u8 = (f / 14) as u8;
            let kind = kind_number(f % 14);
            if kind.can_score() {
                proof {
                    assert(spells(classes@, root as int, kind));
                    assert(is_clear(classes@, root as int, kind));
                }
                Some(Harmony { root, classes, kind })
            } else {
                None
            }
        },
    }
}

/// Classes moved up by some semitones.
pub open spec fn transposed(classes: Seq<bool>, shift: int) -> Seq<bool> {
    Seq::new(12, |class: int| classes[(class - shift) % 12])
}

/// Moving every pitch by the same interval moves the chord that they spell.
pub proof fn law_transposition(classes: Seq<bool>, root: int, kind: ChordKind, shift: int)
    requires
        classes.len() == 12,
        0 <= root < 12,
    ensures
        spells(classes, root, kind) == spells(
            transposed(classes, shift),
            (root + shift) % 12,
            kind,
        ),
{
    let moved = transposed(classes, shift);
    let to = (root + shift) % 12;
    if spells(classes, root, kind) {
        assert forall|c: int| 0 <= c < 12 implies moved[c] == #[trigger] chord_classes(to, kind)[c] by {
            lemma_intervals(c, root, shift);
            assert(classes[(c - shift) % 12] == chord_classes(root, kind)[(c - shift) % 12]);
        }
        assert(moved =~= chord_classes(to, kind));
    }
    if spells(moved, to, kind) {
        assert forall|c: int| 0 <= c < 12 implies classes[c] == #[trigger] chord_classes(root, kind)[c] by {
            let d = (c + shift) % 12;
            lemma_intervals(d, root, shift);
            lemma_back(c, shift);
            assert(moved[d] == classes[c]);
            assert(moved[d] == chord_classes(to, kind)[d]);
        }
        assert(classes =~= chord_classes(root, kind));
    }
}

proof fn lemma_intervals(c: int, root: int, shift: int)
    ensures
        ((c - shift) % 12 - root) % 12 == (c - (root + shift) % 12) % 12,
{
}

proof fn lemma_back(c: int, shift: int)
    requires
        0 <= c < 12,
    ensures
        ((c + shift) % 12 - shift) % 12 == c,
{
}

/// What a pitch is worth moves with the chord.
pub proof fn law_transposed_worth(root: int, kind: ChordKind, pitch: int, shift: int)
    requires
        0 <= root < 12,
    ensures
        member_worth((root + shift) % 12, kind, pitch + shift) == member_worth(root, kind, pitch),
{
    lemma_intervals(class_of(pitch + shift), root, shift);
    assert((class_of(pitch + shift) - shift) % 12 == class_of(pitch));
}

} // verus!
