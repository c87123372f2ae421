//! Counting how often texts occur.
use crate::meta::{place, text_less, Place};
use crate::text::{chars_of, same_chars, string_of};
use vstd::prelude::*;

verus! {

/// Texts and how often they occur, in ascending order of the texts.
pub type Count = (Seq<char>, int);

/// How often a text occurs.
pub open spec fn count_of(counts: Seq<Count>, key: Seq<char>) -> int
    decreases counts.len(),
{
    if counts.len() == 0 {
        0
    } else if counts.last().0 == key {
        counts.last().1
    } else {
        count_of(counts.drop_last(), key)
    }
}

/// Counts with one more occurrence of a text.
pub open spec fn counted(counts: Seq<Count>, key: Seq<char>) -> Seq<Count>
    decreases counts.len(),
{
    if counts.len() == 0 || text_less(counts.last().0, key) {
        counts.push((key, 1))
    } else if counts.last().0 == key {
        counts.drop_last().push((key, counts.last().1 + 1))
    } else {
        counted(counts.drop_last(), key).push(counts.last())
    }
}

/// Texts and how often they occur.
pub struct Tally {
    entries: Vec<(String, u128)>,
}

spec fn count_views(entries: Seq<(String, u128)>) -> Seq<Count> {
    Seq::new(entries.len(), |i: int| (entries[i].0@, entries[i].1 as int))
}

impl View for Tally {
    type V = Seq<Count>;

    closed spec fn view(&self) -> Seq<Count> {
        count_views(self.entries@)
    }
}

/// Whether no count is greater than a number.
pub open spec fn at_most(counts: Seq<Count>, n: int) -> bool {
    forall|i: int| 0 <= i < counts.len() ==> 0 < (#[trigger] counts[i]).1 <= n
}

proof fn lemma_counted(counts: Seq<Count>, key: Seq<char>, n: int)
    requires
        at_most(counts, n),
        n >= 0,
    ensures
        at_most(counted(counts, key), n + 1),
    decreases counts.len(),
{
    let new = counted(counts, key);
    if !(counts.len() == 0 || text_less(counts.last().0, key)) && counts.last().0 != key {
        let front = counts.drop_last();
        assert(at_most(front, n)) by {
            assert forall|i: int| 0 <= i < front.len() implies 0 < (#[trigger] front[i]).1
                <= n by {
                assert(front[i] == counts[i]);
            }
        }
        lemma_counted(front, key, n);
        let inner = counted(front, key);
        assert forall|i: int| 0 <= i < new.len() implies 0 < (#[trigger] new[i]).1 <= n + 1 by {
            if i < inner.len() {
                assert(new[i] == inner[i]);
            } else {
                assert(new[i] == counts[counts.len() - 1]);
            }
        }
    } else {
        assert forall|i: int| 0 <= i < new.len() implies 0 < (#[trigger] new[i]).1 <= n + 1 by {
            if i < counts.len() - 1 {
                assert(new[i] == counts[i]);
            } else if i < counts.len() {
                assert(0 < counts[i].1 <= n);
            }
        }
    }
}

impl Tally {
    pub fn new() -> (tally: Self)
        ensures
            tally@ == Seq::<Count>::empty(),
    {
        let entries: Vec<(String, u128)> = Vec::new();
        proof {
            assert(count_views(entries@) =~= Seq::<Count>::empty());
        }
        Tally { entries }
    }

    pub fn len(&self) -> (n: usize)
        ensures
            n == self@.len(),
    {
        self.entries.len()
    }

    /// The text at a position and how often it occurs.
    pub fn entry(&self, i: usize) -> (r: (&String, u128))
        requires
            i < self@.len(),
        ensures
            r.0@ == self@[i as int].0,
            r.1 == self@[i as int].1,
    {
        let e = &self.entries[i];
        (&e.0, e.1)
    }

    /// Whether a text occurs.
    pub fn holds(&self, key: &str) -> (r: bool)
        ensures
            r == (exists|i: int| 0 <= i < self@.len() && (#[trigger] self@[i]).0 == key@),
    {
        let wanted = chars_of(key);
        let mut i: usize = 0;
        while i < self.entries.len()
            invariant
                i <= self.entries.len(),
                wanted@ == key@,
                forall|k: int| 0 <= k < i ==> (#[trigger] self@[k]).0 != key@,
            decreases self.entries.len() - i,
        {
            if same_chars(&chars_of(self.entries[i].0.as_str()), &wanted) {
                proof {
                    assert(self@[i as int].0 == key@);
                }
                return true;
            }
            i += 1;
        }
        false
    }

    /// Counts one more occurrence of a text.
    pub fn count(&mut self, key: &Vec<char>, Ghost(n): Ghost<int>)
        requires
            at_most(old(self)@, n),
            0 <= n < u128::MAX,
        ensures
            final(self)@ == counted(old(self)@, key@),
            at_most(final(self)@, n + 1),
    {
        let ghost before = self@;
        proof {
            lemma_counted(before, key@, n);
        }
        let mut i: usize = self.entries.len();
        let mut same: bool = false;
        proof {
            assert(before.take(i as int) =~= before);
            assert(counted(before.take(i as int), key@) + before.skip(i as int) =~= counted(
                before,
                key@,
            ));
        }
        while i > 0 && !same
            invariant
                i <= before.len(),
                before == self@,
                counted(before.take(i as int), key@) + before.skip(i as int) == counted(
                    before,
                    key@,
                ),
                same ==> i > 0 && before[i - 1].0 == key@ && !text_less(before[i - 1].0, key@),
            ensures
                i <= before.len(),
                before == self@,
                counted(before.take(i as int), key@) + before.skip(i as int) == counted(
                    before,
                    key@,
                ),
                same ==> i > 0 && before[i - 1].0 == key@ && !text_less(before[i - 1].0, key@),
                !same && i > 0 ==> text_less(before[i - 1].0, key@),
            decreases i, (if same {
                0int
            } else {
                1int
            }),
        {
            let found = chars_of(self.entries[i - 1].0.as_str());
            let relation = place(&found, key);
            proof {
                assert(before.take(i as int).drop_last() =~= before.take(i - 1));
                assert(before.take(i as int).last() == before[i - 1]);
                assert(found@ == before[i - 1].0);
            }
            if relation == Place::Before {
                break;
            }
            if relation == Place::Same {
                same = true;
            } else {
                proof {
                    assert(counted(before.take(i - 1), key@).push(before[i - 1]) + before.skip(
                        i as int,
                    ) =~= counted(before.take(i - 1), key@) + before.skip(i - 1));
                }
                i -= 1;
            }
        }
        if same {
            let more: u128 = {
                proof {
                    assert(0 < before[i - 1].1 <= n);
                }
                self.entries[i - 1].1 + 1
            };
            let text = string_of(key);
            self.entries.set(i - 1, (text, more));
            proof {
                assert(before.take(i as int).last() == before[i - 1]);
                assert(count_views(self.entries@) =~= before.take(i as int).drop_last().push(
                    (key@, before[i - 1].1 + 1),
                ) + before.skip(i as int));
            }
        } else {
            let text = string_of(key);
            self.entries.insert(i, (text, 1));
            proof {
                if i > 0 {
                    assert(before.take(i as int).last() == before[i - 1]);
                }
                assert(count_views(self.entries@) =~= before.take(i as int).push((key@, 1int))
                    + before.skip(i as int));
            }
        }
    }
}

} // verus!
