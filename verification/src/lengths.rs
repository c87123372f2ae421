//! The durations that a single length can write, and sums of them for every other duration.
use crate::ascii::DOT;
use crate::mml::{base_ticks, duration, duration_of, MmlError};
use crate::score::Tick;
use crate::text::decimal;
use vstd::arithmetic::power2::pow2;
use vstd::prelude::*;

verus! {

/// The longest duration for which the shortest sum is looked up.
pub const MAX_DP: usize = 1400;

/// The longest duration of a single length: a dotted whole note.
pub const LONGEST: Tick = 576;

/// A duration that one length writes, and the length that is shortest to write.
#[derive(Clone, Copy, Debug, PartialEq, Eq, Structural)]
pub struct Atom {
    pub ticks: Tick,
    pub length: Tick,
    pub dots: usize,
}

/// Why a duration cannot be written.
#[derive(Clone, Copy, Debug, PartialEq, Eq, Structural)]
pub enum LengthError {
    Negative { ticks: Tick },
    Unrepresentable { ticks: Tick },
}

/// The digits of a length and one dot for each of its dots.
pub open spec fn length_text(length: Tick, dots: usize) -> Seq<u8> {
    decimal(length as nat) + Seq::new(dots as nat, |i: int| DOT)
}

/// The lengths one by one: 1, 1., 2, 2. and so on up to 64 and 64 dotted.
#[verifier::opaque]
pub open spec fn candidate(k: int) -> Atom {
    Atom {
        ticks: duration_of(k / 2 + 1, (k % 2) as nat)->Ok_0,
        length: (k / 2 + 1) as Tick,
        dots: (k % 2) as usize,
    }
}

/// The first position, from a given one on, of the atom that lasts some ticks.
pub open spec fn find_from(table: Seq<Atom>, ticks: int, i: int) -> int
    decreases table.len() - i,
{
    if i < 0 || i >= table.len() || table[i].ticks == ticks {
        i
    } else {
        find_from(table, ticks, i + 1)
    }
}

/// A table with one more length: a new duration goes to the end, and one that is there takes
/// the length if that is shorter to write.
pub open spec fn with_atom(table: Seq<Atom>, atom: Atom) -> Seq<Atom> {
    let i = find_from(table, atom.ticks as int, 0);
    if i >= table.len() {
        table.push(atom)
    } else if length_text(atom.length, atom.dots).len() < length_text(
        table[i].length,
        table[i].dots,
    ).len() {
        table.update(i, atom)
    } else {
        table
    }
}

/// The table of atoms that the first lengths give.
pub open spec fn atoms_of(k: int) -> Seq<Atom>
    decreases k,
{
    if k <= 0 {
        Seq::empty()
    } else {
        with_atom(atoms_of(k - 1), candidate(k - 1))
    }
}

/// The table of all atoms.
pub open spec fn atoms() -> Seq<Atom> {
    atoms_of(128)
}

/// Whether some ticks are those of an atom.
pub open spec fn is_atom(ticks: int) -> bool {
    exists|i: int| 0 <= i < atoms().len() && (#[trigger] atoms()[i]).ticks == ticks
}

/// The sum of some durations.
pub open spec fn total(s: Seq<Tick>) -> int
    decreases s.len(),
{
    if s.len() == 0 {
        0
    } else {
        total(s.drop_last()) + s.last()
    }
}

/// The sum of atoms that makes up a duration: as few as possible, and of the sums that are
/// equally short the one that ends in the earliest atom of the table.
pub open spec fn decompose(v: int) -> Option<Seq<Tick>>
    decreases v, atoms().len() + 1,
{
    if v <= 0 {
        Some(Seq::empty())
    } else {
        best_ending(v, atoms().len() as int)
    }
}

/// The shortest sum that ends in one of the first atoms of the table.
pub open spec fn best_ending(v: int, k: int) -> Option<Seq<Tick>>
    decreases v, k,
{
    if k <= 0 || v <= 0 {
        None
    } else {
        let best = best_ending(v, k - 1);
        let atom = atoms()[k - 1].ticks;
        if 0 < atom <= v {
            match decompose(v - atom) {
                Some(before) => if best is None || before.len() + 1 < best->Some_0.len() {
                    Some(before.push(atom))
                } else {
                    best
                },
                None => best,
            }
        } else {
            best
        }
    }
}

/// The atoms in which a duration is written: dotted whole notes until the rest is short
/// enough to look up.
pub open spec fn split_of(ticks: int) -> Option<Seq<Tick>>
    decreases ticks,
{
    if ticks < 0 {
        None
    } else if ticks > MAX_DP {
        match split_of(ticks - LONGEST) {
            Some(rest) => Some(seq![LONGEST] + rest),
            None => None,
        }
    } else {
        decompose(ticks)
    }
}

proof fn lemma_candidate(k: int)
    requires
        0 <= k < 128,
    ensures
        duration_of(k / 2 + 1, (k % 2) as nat) is Ok,
        6 <= candidate(k).ticks <= LONGEST,
        duration_of(candidate(k).length as int, candidate(k).dots as nat) == Ok::<_, MmlError>(
            candidate(k).ticks,
        ),
        1 <= candidate(k).length <= 64,
        candidate(k).dots <= 1,
        k % 2 == 0 ==> candidate(k).ticks == 384int / (k / 2 + 1),
{
    reveal(candidate);
    let length = k / 2 + 1;
    let base = base_ticks(length);
    assert(6 <= 384int / length <= 384) by (nonlinear_arith)
        requires
            1 <= length <= 64,
    ;
    vstd::arithmetic::power2::lemma2_to64();
    assert(pow2(0) == 1 && pow2(1) == 2);
    if k % 2 == 0 {
        assert((base + 1 - 1) / 1 == base);
    } else {
        assert((k % 2) as nat == 1);
        assert(base <= 2 * base - (base + 2 - 1) / 2 <= 576);
    }
}

proof fn lemma_plain(length: int, ticks: int)
    requires
        1 <= length <= 64,
        384int / length == ticks,
    ensures
        candidate(2 * length - 2).ticks == ticks,
{
    lemma_candidate(2 * length - 2);
    assert((2 * length - 2) / 2 + 1 == length);
}

spec fn is_candidate(atom: Atom, k: int) -> bool {
    exists|j: int| 0 <= j < k && atom == #[trigger] candidate(j)
}

spec fn has_ticks(table: Seq<Atom>, ticks: int) -> bool {
    exists|i: int| 0 <= i < table.len() && (#[trigger] table[i]).ticks == ticks
}

spec fn distinct(table: Seq<Atom>) -> bool {
    forall|i: int, j: int|
        #![trigger table[i], table[j]]
        0 <= i < j < table.len() ==> table[i].ticks != table[j].ticks
}

proof fn lemma_with_atom(table: Seq<Atom>, atom: Atom)
    requires
        distinct(table),
    ensures
        distinct(with_atom(table, atom)),
        has_ticks(with_atom(table, atom), atom.ticks as int),
        forall|t: int| has_ticks(table, t) ==> #[trigger] has_ticks(with_atom(table, atom), t),
        forall|i: int|
            0 <= i < with_atom(table, atom).len() ==> #[trigger] with_atom(table, atom)[i] == atom
                || (i < table.len() && with_atom(table, atom)[i] == table[i]),
        table.len() <= with_atom(table, atom).len() <= table.len() + 1,
{
    let p = find_from(table, atom.ticks as int, 0);
    lemma_find(table, atom.ticks as int, 0);
    let new = with_atom(table, atom);
    if p >= table.len() {
        assert(new[table.len() as int].ticks == atom.ticks);
    } else {
        assert(new[p].ticks == atom.ticks);
    }
    assert forall|t: int| has_ticks(table, t) implies #[trigger] has_ticks(new, t) by {
        let i = choose|i: int| 0 <= i < table.len() && (#[trigger] table[i]).ticks == t;
        assert(new[i].ticks == t);
    }
}

/// What holds of the table after any number of lengths.
proof fn lemma_table(k: int)
    requires
        0 <= k <= 128,
    ensures
        forall|i: int| 0 <= i < atoms_of(k).len() ==> is_candidate(#[trigger] atoms_of(k)[i], k),
        forall|j: int|
            0 <= j < k ==> has_ticks(atoms_of(k), (#[trigger] candidate(j)).ticks as int),
        distinct(atoms_of(k)),
        atoms_of(k).len() <= k,
    decreases k,
{
    if k > 0 {
        lemma_table(k - 1);
        let table = atoms_of(k - 1);
        let atom = candidate(k - 1);
        lemma_with_atom(table, atom);
        let new = atoms_of(k);
        assert(new == with_atom(table, atom));
        assert forall|i: int| 0 <= i < new.len() implies is_candidate(#[trigger] new[i], k) by {
            if new[i] != atom {
                assert(is_candidate(table[i], k - 1));
                let j = choose|j: int| 0 <= j < k - 1 && table[i] == #[trigger] candidate(j);
                assert(new[i] == candidate(j));
            }
        }
        assert forall|j: int| 0 <= j < k implies has_ticks(
            new,
            (#[trigger] candidate(j)).ticks as int,
        ) by {
            if j < k - 1 {
                assert(has_ticks(table, candidate(j).ticks as int));
            }
        }
    }
}

proof fn lemma_find(table: Seq<Atom>, ticks: int, from: int)
    requires
        0 <= from <= table.len(),
    ensures
        from <= find_from(table, ticks, from) <= table.len(),
        forall|i: int|
            from <= i < find_from(table, ticks, from) ==> (#[trigger] table[i]).ticks != ticks,
        find_from(table, ticks, from) < table.len() ==> table[find_from(
            table,
            ticks,
            from,
        )].ticks == ticks,
    decreases table.len() - from,
{
    if from < table.len() && table[from].ticks != ticks {
        lemma_find(table, ticks, from + 1);
    }
}

/// Every atom lasts between the shortest and the longest single length, and is what the
/// length in the table says.
pub proof fn lemma_atoms()
    ensures
        atoms().len() <= 128,
        forall|i: int|
            0 <= i < atoms().len() ==> {
                let a = #[trigger] atoms()[i];
                &&& 6 <= a.ticks <= LONGEST
                &&& 1 <= a.length <= 64
                &&& a.dots <= 1
                &&& duration_of(a.length as int, a.dots as nat) == Ok::<_, MmlError>(a.ticks)
            },
        forall|i: int, j: int|
            0 <= i < j < atoms().len() ==> (#[trigger] atoms()[i]).ticks != (
            #[trigger] atoms()[j]).ticks,
        is_atom(6),
        is_atom(7),
        is_atom(8),
        is_atom(9),
        is_atom(10),
        is_atom(11),
        is_atom(LONGEST as int),
{
    lemma_table(128);
    assert forall|i: int| 0 <= i < atoms().len() implies {
        let a = #[trigger] atoms()[i];
        &&& 6 <= a.ticks <= LONGEST
        &&& 1 <= a.length <= 64
        &&& a.dots <= 1
        &&& duration_of(a.length as int, a.dots as nat) == Ok::<_, MmlError>(a.ticks)
    } by {
        assert(is_candidate(atoms_of(128)[i], 128));
        let j = choose|j: int| 0 <= j < 128 && atoms_of(128)[i] == #[trigger] candidate(j);
        lemma_candidate(j);
    }
    lemma_plain(64, 6);
    lemma_plain(54, 7);
    lemma_plain(48, 8);
    lemma_plain(42, 9);
    lemma_plain(38, 10);
    lemma_plain(34, 11);
    lemma_candidate(1);
    assert forall|t: int| #[trigger] has_ticks(atoms(), t) implies is_atom(t) by {
        let i = choose|i: int| 0 <= i < atoms().len() && (#[trigger] atoms()[i]).ticks == t;
        assert(atoms()[i].ticks == t);
    }
    assert(candidate(126).ticks == 6);
    assert(candidate(106).ticks == 7);
    assert(candidate(94).ticks == 8);
    assert(candidate(82).ticks == 9);
    assert(candidate(74).ticks == 10);
    assert(candidate(66).ticks == 11);
    assert(candidate(1).ticks == 576) by {
        reveal(candidate);
        vstd::arithmetic::power2::lemma2_to64();
    }
}

proof fn lemma_push_total(s: Seq<Tick>, x: Tick)
    ensures
        total(s.push(x)) == total(s) + x,
{
    assert(s.push(x).drop_last() =~= s);
}

/// Putting a duration in front of others adds it to their sum.
pub proof fn lemma_total_front(x: Tick, s: Seq<Tick>)
    ensures
        total(seq![x] + s) == x + total(s),
    decreases s.len(),
{
    if s.len() == 0 {
        assert((seq![x] + s).drop_last() =~= Seq::<Tick>::empty());
        assert(total(Seq::<Tick>::empty()) == 0);
        assert(total(s) == 0);
    } else {
        lemma_total_front(x, s.drop_last());
        assert((seq![x] + s).drop_last() =~= seq![x] + s.drop_last());
    }
}

/// What the shortest sum is: it adds up, it is made of atoms, and it exists wherever a sum
/// that ends in one of those atoms does.
proof fn lemma_best(v: int, k: int)
    requires
        v > 0,
        0 <= k <= atoms().len(),
    ensures
        best_ending(v, k) matches Some(s) ==> {
            &&& s.len() > 0
            &&& total(s) == v
            &&& forall|i: int| 0 <= i < s.len() ==> is_atom((#[trigger] s[i]) as int)
            &&& 0 < s.last() <= v
            &&& decompose(v - s.last()) == Some(s.drop_last())
        },
        forall|i: int|
            0 <= i < k && (#[trigger] atoms()[i]).ticks <= v && decompose(v - atoms()[i].ticks)
                is Some ==> best_ending(v, k) is Some && best_ending(v, k)->Some_0.len()
                <= decompose(v - atoms()[i].ticks)->Some_0.len() + 1,
    decreases v, k, 0int,
{
    if k > 0 {
        lemma_atoms();
        lemma_best(v, k - 1);
        let atom = atoms()[k - 1].ticks;
        if 0 < atom <= v {
            lemma_decompose(v - atom);
            match decompose(v - atom) {
                Some(before) => {
                    lemma_push_total(before, atom);
                    let s = before.push(atom);
                    assert(s.drop_last() =~= before);
                    assert forall|i: int| 0 <= i < s.len() implies is_atom(
                        (#[trigger] s[i]) as int,
                    ) by {
                        if i < before.len() {
                            assert(s[i] == before[i]);
                        } else {
                            assert(atoms()[k - 1].ticks == s[i]);
                        }
                    }
                },
                None => {},
            }
        }
    }
}

/// The atoms of a looked-up duration add up to it.
pub proof fn lemma_decompose(v: int)
    requires
        v >= 0,
    ensures
        decompose(v) matches Some(s) ==> {
            &&& total(s) == v
            &&& forall|i: int| 0 <= i < s.len() ==> is_atom((#[trigger] s[i]) as int)
            &&& s.len() <= v
        },
        v > 0 ==> (decompose(v) matches Some(s) ==> s.len() > 0),
    decreases v, atoms().len() + 1, 1int,
{
    if v > 0 {
        lemma_best(v, atoms().len() as int);
        if decompose(v) is Some {
            let s = decompose(v)->Some_0;
            lemma_decompose(v - s.last());
        }
    } else {
        assert(total(Seq::<Tick>::empty()) == 0);
    }
}

/// No sum of atoms that adds up to a duration is shorter than the one that is looked up.
pub proof fn law_fewest_pieces(v: int, s: Seq<Tick>)
    requires
        total(s) == v,
        forall|i: int| 0 <= i < s.len() ==> is_atom((#[trigger] s[i]) as int),
    ensures
        v >= 0,
        decompose(v) is Some,
        decompose(v)->Some_0.len() <= s.len(),
    decreases s.len(),
{
    if s.len() > 0 {
        lemma_atoms();
        let last = s.last();
        assert(is_atom(last as int));
        let t = s.drop_last();
        assert forall|i: int| 0 <= i < t.len() implies is_atom((#[trigger] t[i]) as int) by {
            assert(t[i] == s[i]);
        }
        law_fewest_pieces(v - last, t);
        lemma_best(v, atoms().len() as int);
    }
}

/// Every duration from the shortest length on is a sum of atoms.
proof fn lemma_decomposable(v: int)
    requires
        v >= 6,
    ensures
        decompose(v) is Some,
    decreases v,
{
    lemma_atoms();
    lemma_best(v, atoms().len() as int);
    let atom = if v >= 12 {
        6
    } else {
        v
    };
    if v >= 12 {
        lemma_decomposable(v - 6);
    }
    assert(is_atom(atom));
    let i = choose|i: int| 0 <= i < atoms().len() && (#[trigger] atoms()[i]).ticks == atom;
    assert(decompose(v - atoms()[i].ticks) is Some);
}

proof fn lemma_total_atoms(s: Seq<Tick>)
    requires
        forall|i: int| 0 <= i < s.len() ==> is_atom((#[trigger] s[i]) as int),
    ensures
        total(s) >= 6 * s.len(),
    decreases s.len(),
{
    if s.len() > 0 {
        lemma_atoms();
        let t = s.drop_last();
        assert forall|i: int| 0 <= i < t.len() implies is_atom((#[trigger] t[i]) as int) by {
            assert(t[i] == s[i]);
        }
        lemma_total_atoms(t);
        assert(is_atom(s[s.len() - 1] as int));
    }
}

/// A duration can be written exactly where it is zero or at least the shortest length, and
/// the lengths that write it are atoms that add up to it.
pub proof fn lemma_split(ticks: int)
    ensures
        split_of(ticks) is Some <==> ticks == 0 || ticks >= 6,
        split_of(ticks) matches Some(s) ==> {
            &&& total(s) == ticks
            &&& forall|i: int| 0 <= i < s.len() ==> is_atom((#[trigger] s[i]) as int)
            &&& (s.len() == 0 <==> ticks == 0)
            &&& s.len() <= ticks
        },
    decreases ticks,
{
    if ticks > MAX_DP {
        lemma_split(ticks - LONGEST);
        lemma_atoms();
        let rest = split_of(ticks - LONGEST)->Some_0;
        lemma_total_front(LONGEST, rest);
        let s = seq![LONGEST] + rest;
        assert forall|i: int| 0 <= i < s.len() implies is_atom((#[trigger] s[i]) as int) by {
            if i > 0 {
                assert(s[i] == rest[i - 1]);
            }
        }
    } else if ticks >= 0 {
        lemma_decompose(ticks);
        if ticks >= 6 {
            lemma_decomposable(ticks);
        } else if ticks > 0 && decompose(ticks) is Some {
            lemma_total_atoms(decompose(ticks)->Some_0);
        }
    }
}

proof fn lemma_text_len(length: Tick, dots: usize)
    requires
        1 <= length <= 64,
    ensures
        length_text(length, dots).len() == (if length < 10 {
            1
        } else {
            2int
        }) + dots,
{
    reveal_with_fuel(decimal, 3);
}

/// The atoms, and the shortest sum of them for every duration up to the longest looked up.
pub struct LengthTable {
    atoms: Vec<Atom>,
    sums: Vec<Option<(usize, Tick)>>,
}

/// Whether an entry holds the length and the last atom of a sum.
spec fn describes(entry: Option<(usize, Tick)>, sum: Option<Seq<Tick>>) -> bool {
    match (entry, sum) {
        (None, None) => true,
        (Some((count, last)), Some(s)) => count == s.len() && (s.len() > 0 ==> last == s.last()),
        _ => false,
    }
}

impl LengthTable {
    /// Whether the table holds what it is meant to hold.
    pub closed spec fn well_formed(&self) -> bool {
        &&& self.atoms@ == atoms()
        &&& self.sums.len() == MAX_DP + 1
        &&& forall|v: int| 0 <= v <= MAX_DP ==> describes(#[trigger] self.sums[v], decompose(v))
    }

    /// Works the table out.
    pub fn new() -> (table: Self)
        ensures
            table.well_formed(),
    {
        let list = collect_atoms();
        proof {
            lemma_atoms();
        }
        let mut sums: Vec<Option<(usize, Tick)>> = Vec::new();
        sums.push(Some((0, 0)));
        let mut v: usize = 1;
        while v <= MAX_DP
            invariant
                1 <= v <= MAX_DP + 1,
                list@ == atoms(),
                list.len() <= 128,
                sums.len() == v,
                forall|u: int| 0 <= u < v ==> describes(#[trigger] sums[u], decompose(u)),
                forall|i: int|
                    0 <= i < list.len() ==> 6 <= (#[trigger] list[i]).ticks <= LONGEST,
            decreases MAX_DP + 1 - v,
        {
            let mut best: Option<(usize, Tick)> = None;
            let mut k: usize = 0;
            while k < list.len()
                invariant
                    1 <= v <= MAX_DP,
                    k <= list.len(),
                    list@ == atoms(),
                    sums.len() == v,
                    forall|u: int| 0 <= u < v ==> describes(#[trigger] sums[u], decompose(u)),
                    forall|i: int|
                        0 <= i < list.len() ==> 6 <= (#[trigger] list[i]).ticks <= LONGEST,
                    describes(best, best_ending(v as int, k as int)),
                decreases list.len() - k,
            {
                let atom: Tick = list[k].ticks;
                proof {
                    lemma_best(v as int, k as int);
                    lemma_best(v as int, k as int + 1);
                }
                if atom <= v as Tick {
                    let rest: usize = v - atom as usize;
                    proof {
                        lemma_decompose(rest as int);
                        assert(describes(sums[rest as int], decompose(rest as int)));
                    }
                    match sums[rest] {
                        Some((count, _)) => {
                            let shorter = match best {
                                None => true,
                                Some((have, _)) => count + 1 < have,
                            };
                            if shorter {
                                best = Some((count + 1, atom));
                            }
                        },
                        None => {},
                    }
                }
                k += 1;
            }
            sums.push(best);
            v += 1;
        }
        LengthTable { atoms: list, sums }
    }

    /// The atoms in which a duration is written.
    pub fn split(&self, ticks: Tick) -> (r: Result<Vec<Tick>, LengthError>)
        requires
            self.well_formed(),
        ensures
            match r {
                Ok(s) => split_of(ticks as int) == Some(s@),
                Err(e) => split_of(ticks as int) is None && e == (if ticks < 0 {
                    LengthError::Negative { ticks }
                } else {
                    LengthError::Unrepresentable { ticks }
                }),
            },
    {
        if ticks < 0 {
            return Err(LengthError::Negative { ticks });
        }
        let mut left: Tick = ticks;
        let mut result: Vec<Tick> = Vec::new();
        while left > MAX_DP as Tick
            invariant
                0 <= left <= ticks,
                split_of(left as int) is Some <==> split_of(ticks as int) is Some,
                split_of(ticks as int) is Some ==> split_of(ticks as int)->Some_0 == result@
                    + split_of(left as int)->Some_0,
            decreases left,
        {
            proof {
                let rest = split_of(left - LONGEST);
                if rest is Some {
                    assert(result@ + (seq![LONGEST] + rest->Some_0) =~= result@.push(LONGEST)
                        + rest->Some_0);
                }
            }
            result.push(LONGEST);
            left = left - LONGEST;
        }
        let ghost front = result@;
        proof {
            assert(describes(self.sums[left as int], decompose(left as int)));
        }
        if self.sums[left as usize].is_none() {
            return Err(LengthError::Unrepresentable { ticks });
        }
        let mut tail: Vec<Tick> = Vec::new();
        let ghost whole = decompose(left as int)->Some_0;
        proof {
            lemma_decompose(left as int);
        }
        let mut v: usize = left as usize;
        while v > 0
            invariant
                self.well_formed(),
                0 <= v <= MAX_DP,
                decompose(v as int) is Some,
                whole == decompose(v as int)->Some_0 + tail@.reverse(),
            decreases v,
        {
            proof {
                lemma_decompose(v as int);
                lemma_best(v as int, atoms().len() as int);
                assert(describes(self.sums[v as int], decompose(v as int)));
            }
            match self.sums[v] {
                Some((_, last)) => {
                    proof {
                        let s = decompose(v as int)->Some_0;
                        assert(s =~= s.drop_last().push(s.last()));
                        assert(s + tail@.reverse() =~= s.drop_last() + tail@.push(last).reverse());
                    }
                    tail.push(last);
                    v = v - last as usize;
                },
                None => {},
            }
        }
        proof {
            assert(whole =~= tail@.reverse());
        }
        let mut i: usize = tail.len();
        while i > 0
            invariant
                i <= tail.len(),
                result@ == front + tail@.reverse().take(tail.len() - i),
            decreases i,
        {
            i -= 1;
            result.push(tail[i]);
            proof {
                assert(result@ =~= front + tail@.reverse().take(tail.len() - i));
            }
        }
        proof {
            assert(result@ =~= front + whole);
        }
        Ok(result)
    }

    /// The atom that lasts some ticks.
    pub fn atom(&self, ticks: Tick) -> (r: Atom)
        requires
            self.well_formed(),
            is_atom(ticks as int),
        ensures
            r == atom_of(ticks as int),
    {
        let mut i: usize = 0;
        while i < self.atoms.len() && self.atoms[i].ticks != ticks
            invariant
                i <= self.atoms.len(),
                self.atoms@ == atoms(),
                find_from(atoms(), ticks as int, i as int) == find_from(atoms(), ticks as int, 0),
            decreases self.atoms.len() - i,
        {
            i += 1;
        }
        proof {
            lemma_find(atoms(), ticks as int, 0);
        }
        self.atoms[i]
    }
}

/// The atom of the table that lasts some ticks.
pub open spec fn atom_of(ticks: int) -> Atom {
    atoms()[find_from(atoms(), ticks, 0)]
}

pub proof fn lemma_atom_of(ticks: int)
    requires
        is_atom(ticks),
    ensures
        atom_of(ticks).ticks == ticks,
        1 <= atom_of(ticks).length <= 64,
        atom_of(ticks).dots <= 1,
        duration_of(atom_of(ticks).length as int, atom_of(ticks).dots as nat) == Ok::<
            _,
            MmlError,
        >(atom_of(ticks).ticks),
        6 <= ticks <= LONGEST,
{
    lemma_find(atoms(), ticks, 0);
    lemma_atoms();
}

fn collect_atoms() -> (table: Vec<Atom>)
    ensures
        table@ == atoms(),
{
    let mut table: Vec<Atom> = Vec::new();
    let mut k: usize = 0;
    while k < 128
        invariant
            k <= 128,
            table@ == atoms_of(k as int),
        decreases 128 - k,
    {
        proof {
            lemma_candidate(k as int);
            lemma_table(k as int);
            reveal(candidate);
        }
        let length: Tick = (k / 2 + 1) as Tick;
        let dots: usize = k % 2;
        match duration(length, dots) {
            Ok(ticks) => {
                let atom = Atom { ticks, length, dots };
                proof {
                    assert(atom == candidate(k as int)) by {
                        reveal(candidate);
                    }
                }
                let mut i: usize = 0;
                while i < table.len() && table[i].ticks != ticks
                    invariant
                        i <= table.len(),
                        find_from(table@, ticks as int, i as int) == find_from(
                            table@,
                            ticks as int,
                            0,
                        ),
                    decreases table.len() - i,
                {
                    i += 1;
                }
                if i == table.len() {
                    table.push(atom);
                } else {
                    let old = table[i];
                    proof {
                        assert(is_candidate(atoms_of(k as int)[i as int], k as int));
                        let j = choose|j: int|
                            0 <= j < k && atoms_of(k as int)[i as int] == #[trigger] candidate(j);
                        lemma_candidate(j);
                        lemma_text_len(old.length, old.dots);
                        lemma_text_len(length, dots);
                    }
                    let width: usize = if length < 10 {
                        1 + dots
                    } else {
                        2 + dots
                    };
                    let old_width: usize = if old.length < 10 {
                        1 + old.dots
                    } else {
                        2 + old.dots
                    };
                    if width < old_width {
                        table.set(i, atom);
                    }
                }
            },
            Err(_) => {},
        }
        k += 1;
    }
    table
}

/// The atoms in which a duration is written.
pub fn split_ticks(ticks: Tick) -> (r: Result<Vec<Tick>, LengthError>)
    ensures
        match r {
            Ok(s) => split_of(ticks as int) == Some(s@),
            Err(e) => split_of(ticks as int) is None && e == (if ticks < 0 {
                LengthError::Negative { ticks }
            } else {
                LengthError::Unrepresentable { ticks }
            }),
        },
        r is Ok <==> ticks == 0 || ticks >= 6,
{
    proof {
        lemma_split(ticks as int);
    }
    LengthTable::new().split(ticks)
}

} // verus!
