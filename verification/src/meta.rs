//! What is noted of a track under keys.
use crate::text::{chars_of, same_chars};
use vstd::prelude::*;

verus! {

/// Whether one text comes before another, comparing character by character.
pub open spec fn text_less(a: Seq<char>, b: Seq<char>) -> bool
    decreases a.len(),
{
    if b.len() == 0 {
        false
    } else if a.len() == 0 {
        true
    } else if a[0] != b[0] {
        a[0] < b[0]
    } else {
        text_less(a.skip(1), b.skip(1))
    }
}

pub proof fn lemma_text_order(a: Seq<char>, b: Seq<char>)
    ensures
        text_less(a, b) ==> !text_less(b, a) && a != b,
        !text_less(a, b) && !text_less(b, a) ==> a == b,
    decreases a.len(),
{
    if a.len() == 0 {
        if b.len() == 0 {
            assert(a =~= b);
        }
    } else if b.len() > 0 && a[0] == b[0] {
        lemma_text_order(a.skip(1), b.skip(1));
        if a.skip(1) == b.skip(1) {
            assert(a =~= b) by {
                assert forall|i: int| 0 <= i < a.len() implies a[i] == b[i] by {
                    if i > 0 {
                        assert(a[i] == a.skip(1)[i - 1]);
                        assert(b[i] == b.skip(1)[i - 1]);
                    }
                }
            }
        }
    }
}

proof fn lemma_text_less_transitive(a: Seq<char>, b: Seq<char>, c: Seq<char>)
    requires
        text_less(a, b),
        text_less(b, c),
    ensures
        text_less(a, c),
    decreases a.len(),
{
    if a.len() > 0 && a[0] == b[0] && b[0] == c[0] {
        lemma_text_less_transitive(a.skip(1), b.skip(1), c.skip(1));
    }
}

/// How one text stands to another in order.
#[derive(Clone, Copy, PartialEq, Eq, Structural)]
pub enum Place {
    Before,
    Same,
    Behind,
}

pub(crate) fn place(a: &[char], b: &[char]) -> (r: Place)
    ensures
        r == Place::Before <==> text_less(a@, b@),
        r == Place::Same <==> a@ == b@,
        r == Place::Behind <==> text_less(b@, a@),
{
    let mut i: usize = 0;
    proof {
        assert(a@.skip(0) =~= a@);
        assert(b@.skip(0) =~= b@);
        lemma_text_order(a@, b@);
    }
    while i < a.len() && i < b.len()
        invariant
            i <= a.len(),
            i <= b.len(),
            a@.take(i as int) == b@.take(i as int),
            text_less(a@, b@) == text_less(a@.skip(i as int), b@.skip(i as int)),
            text_less(b@, a@) == text_less(b@.skip(i as int), a@.skip(i as int)),
        decreases a.len() - i,
    {
        let x = a[i];
        let y = b[i];
        proof {
            let (s, t) = (a@.skip(i as int), b@.skip(i as int));
            assert(s[0] == x && t[0] == y);
            assert(s.skip(1) =~= a@.skip(i + 1));
            assert(t.skip(1) =~= b@.skip(i + 1));
            lemma_text_order(a@, b@);
        }
        if x < y {
            return Place::Before;
        }
        if y < x {
            proof {
                lemma_text_order(b@, a@);
            }
            return Place::Behind;
        }
        proof {
            assert(a@.take(i + 1) =~= b@.take(i + 1)) by {
                assert forall|k: int| 0 <= k <= i implies a@[k] == b@[k] by {
                    if k < i {
                        assert(a@.take(i as int)[k] == b@.take(i as int)[k]);
                    }
                }
            }
        }
        i += 1;
    }
    proof {
        lemma_text_order(a@, b@);
        lemma_text_order(b@, a@);
    }
    if a.len() == b.len() {
        proof {
            assert(a@.take(i as int) =~= a@);
            assert(b@.take(i as int) =~= b@);
        }
        Place::Same
    } else if a.len() < b.len() {
        Place::Before
    } else {
        Place::Behind
    }
}

/// A key and the value that stands under it.
pub type Entry = (Seq<char>, Seq<char>);

/// The value under a key.
pub open spec fn entry_of(entries: Seq<Entry>, key: Seq<char>) -> Option<Seq<char>>
    decreases entries.len(),
{
    if entries.len() == 0 {
        None
    } else if entries.last().0 == key {
        Some(entries.last().1)
    } else {
        entry_of(entries.drop_last(), key)
    }
}

/// Entries with a value put under a key, in place of the one that was there.
pub open spec fn with_entry(entries: Seq<Entry>, key: Seq<char>, value: Seq<char>) -> Seq<Entry>
    decreases entries.len(),
{
    if entries.len() == 0 || text_less(entries.last().0, key) {
        entries.push((key, value))
    } else if entries.last().0 == key {
        entries.drop_last().push((key, value))
    } else {
        with_entry(entries.drop_last(), key, value).push(entries.last())
    }
}

/// Whether the keys ascend, so that none occurs twice.
pub open spec fn ascending(entries: Seq<Entry>) -> bool {
    forall|i: int, j: int|
        #![trigger entries[i], entries[j]]
        0 <= i < j < entries.len() ==> text_less(entries[i].0, entries[j].0)
}

/// A new entry keeps the keys ascending; it is found, and so is every other one.
pub proof fn law_entries(entries: Seq<Entry>, key: Seq<char>, value: Seq<char>, other: Seq<char>)
    requires
        ascending(entries),
    ensures
        ascending(with_entry(entries, key, value)),
        entry_of(with_entry(entries, key, value), key) == Some(value),
        other != key ==> entry_of(with_entry(entries, key, value), other) == entry_of(
            entries,
            other,
        ),
    decreases entries.len(),
{
    let new = with_entry(entries, key, value);
    lemma_with_entry(entries, key, value);
    if entries.len() == 0 || text_less(entries.last().0, key) {
        assert(new.drop_last() =~= entries);
    } else if entries.last().0 == key {
        assert(new.drop_last() =~= entries.drop_last());
    } else {
        let front = entries.drop_last();
        assert(ascending(front)) by {
            assert forall|i: int, j: int|
                #![trigger front[i], front[j]]
                0 <= i < j < front.len() implies text_less(front[i].0, front[j].0) by {
                assert(front[i] == entries[i] && front[j] == entries[j]);
            }
        }
        law_entries(front, key, value, other);
        assert(new.drop_last() =~= with_entry(front, key, value));
    }
}

proof fn lemma_with_entry(entries: Seq<Entry>, key: Seq<char>, value: Seq<char>)
    requires
        ascending(entries),
    ensures
        ascending(with_entry(entries, key, value)),
        forall|i: int|
            0 <= i < with_entry(entries, key, value).len() ==> (#[trigger] with_entry(
                entries,
                key,
                value,
            )[i]).0 == key || exists|j: int|
                0 <= j < entries.len() && entries[j].0 == with_entry(entries, key, value)[i].0,
    decreases entries.len(),
{
    let new = with_entry(entries, key, value);
    let n = entries.len() as int;
    if n == 0 || text_less(entries.last().0, key) {
        assert forall|i: int, j: int|
            #![trigger new[i], new[j]]
            0 <= i < j < new.len() implies text_less(new[i].0, new[j].0) by {
            assert(new[i] == entries[i]);
            if j < n {
                assert(new[j] == entries[j]);
            } else if i < n - 1 {
                assert(text_less(entries[i].0, entries[n - 1].0));
                lemma_text_less_transitive(entries[i].0, entries[n - 1].0, key);
            }
        }
        assert forall|i: int| 0 <= i < new.len() implies (#[trigger] new[i]).0 == key || exists|
            j: int,
        |
            0 <= j < entries.len() && entries[j].0 == new[i].0 by {
            if i < n {
                assert(entries[i].0 == new[i].0);
            }
        }
    } else if entries.last().0 == key {
        assert forall|i: int, j: int|
            #![trigger new[i], new[j]]
            0 <= i < j < new.len() implies text_less(new[i].0, new[j].0) by {
            assert(new[i].0 == entries[i].0 && new[j].0 == entries[j].0);
        }
        assert forall|i: int| 0 <= i < new.len() implies (#[trigger] new[i]).0 == key || exists|
            j: int,
        |
            0 <= j < entries.len() && entries[j].0 == new[i].0 by {
            assert(entries[i].0 == new[i].0);
        }
    } else {
        let front = entries.drop_last();
        assert(ascending(front)) by {
            assert forall|i: int, j: int|
                #![trigger front[i], front[j]]
                0 <= i < j < front.len() implies text_less(front[i].0, front[j].0) by {
                assert(front[i] == entries[i] && front[j] == entries[j]);
            }
        }
        lemma_with_entry(front, key, value);
        lemma_text_order(key, entries.last().0);
        let inner = with_entry(front, key, value);
        assert forall|i: int, j: int|
            #![trigger new[i], new[j]]
            0 <= i < j < new.len() implies text_less(new[i].0, new[j].0) by {
            assert(new[i] == inner[i]);
            if j < inner.len() {
                assert(new[j] == inner[j]);
            } else if inner[i].0 != key {
                let k = choose|k: int| 0 <= k < front.len() && front[k].0 == inner[i].0;
                assert(front[k] == entries[k]);
                assert(text_less(entries[k].0, entries[n - 1].0));
            }
        }
        assert forall|i: int| 0 <= i < new.len() implies (#[trigger] new[i]).0 == key || exists|
            j: int,
        |
            0 <= j < entries.len() && entries[j].0 == new[i].0 by {
            if i < inner.len() {
                assert(new[i] == inner[i]);
                if inner[i].0 != key {
                    let k = choose|k: int| 0 <= k < front.len() && front[k].0 == inner[i].0;
                    assert(entries[k].0 == new[i].0);
                }
            } else {
                assert(entries[n - 1].0 == new[i].0);
            }
        }
    }
}

/// What is noted of a track under keys, in ascending order of the keys.
#[derive(Debug)]
pub struct Meta {
    entries: Vec<(String, String)>,
}

spec fn entry_views(entries: Seq<(String, String)>) -> Seq<Entry> {
    Seq::new(entries.len(), |i: int| (entries[i].0@, entries[i].1@))
}

impl View for Meta {
    type V = Seq<Entry>;

    closed spec fn view(&self) -> Seq<Entry> {
        entry_views(self.entries@)
    }
}

impl Meta {
    #[verifier::type_invariant]
    spec fn keys_ascend(self) -> bool {
        ascending(entry_views(self.entries@))
    }

    /// No entries.
    pub fn new() -> (meta: Self)
        ensures
            meta@ == Seq::<Entry>::empty(),
    {
        let entries: Vec<(String, String)> = Vec::new();
        proof {
            assert(entry_views(entries@) =~= Seq::<Entry>::empty());
        }
        Meta { entries }
    }

    /// The number of entries.
    pub fn len(&self) -> (n: usize)
        ensures
            n == self@.len(),
            ascending(self@),
    {
        proof {
            use_type_invariant(self);
        }
        self.entries.len()
    }

    /// The entry at a position.
    pub fn entry(&self, i: usize) -> (r: (&String, &String))
        requires
            i < self@.len(),
        ensures
            r.0@ == self@[i as int].0,
            r.1@ == self@[i as int].1,
    {
        let e = &self.entries[i];
        (&e.0, &e.1)
    }

    /// The value under a key.
    pub fn get(&self, key: &str) -> (r: Option<&String>)
        ensures
            match r {
                Some(value) => entry_of(self@, key@) == Some(value@),
                None => entry_of(self@, key@) is None,
            },
    {
        let wanted = chars_of(key);
        let mut i: usize = self.entries.len();
        proof {
            assert(self@.take(i as int) =~= self@);
        }
        while i > 0
            invariant
                i <= self.entries.len(),
                wanted@ == key@,
                entry_of(self@.take(i as int), key@) == entry_of(self@, key@),
            decreases i,
        {
            let found = chars_of(self.entries[i - 1].0.as_str());
            proof {
                assert(self@.take(i as int).drop_last() =~= self@.take(i - 1));
            }
            if same_chars(&found, &wanted) {
                return Some(&self.entries[i - 1].1);
            }
            i -= 1;
        }
        None
    }

    /// Puts a value under a key, in place of the one that was there.
    pub fn insert(&mut self, key: String, value: String)
        ensures
            final(self)@ == with_entry(old(self)@, key@, value@),
    {
        proof {
            use_type_invariant(&*self);
            lemma_with_entry(self@, key@, value@);
        }
        let ghost before = self@;
        let wanted = chars_of(key.as_str());
        let mut i: usize = self.entries.len();
        let mut same: bool = false;
        proof {
            assert(before.take(i as int) =~= before);
            assert(with_entry(before.take(i as int), key@, value@) + before.skip(i as int)
                =~= with_entry(before, key@, value@));
        }
        while i > 0 && !same
            invariant
                i <= before.len(),
                before == self@,
                wanted@ == key@,
                same ==> i > 0 && before[i - 1].0 == key@,
                with_entry(before.take(i as int), key@, value@) + before.skip(i as int)
                    == with_entry(before, key@, value@),
            ensures
                i <= before.len(),
                before == self@,
                with_entry(before.take(i as int), key@, value@) + before.skip(i as int)
                    == with_entry(before, key@, value@),
                same ==> i > 0 && before[i - 1].0 == key@,
                !same && i > 0 ==> text_less(before[i - 1].0, key@),
            decreases i, (if same {
                0int
            } else {
                1int
            }),
        {
            let found = chars_of(self.entries[i - 1].0.as_str());
            let relation = place(&found, &wanted);
            proof {
                assert(before.take(i as int).drop_last() =~= before.take(i - 1));
                assert(before.take(i as int).last() == before[i - 1]);
                assert(found@ == before[i - 1].0);
            }
            if relation == Place::Before {
                break;
            }
            if relation == Place::Same {
                same = true;
            } else {
                proof {
                    lemma_text_order(before[i - 1].0, key@);
                    lemma_text_order(key@, before[i - 1].0);
                    assert(with_entry(before.take(i - 1), key@, value@).push(before[i - 1])
                        + before.skip(i as int) =~= with_entry(before.take(i - 1), key@, value@)
                        + before.skip(i - 1));
                }
                i -= 1;
            }
        }
        let ghost k = key@;
        let ghost v = value@;
        let mut entries: Vec<(String, String)> = Vec::new();
        std::mem::swap(&mut entries, &mut self.entries);
        if same {
            proof {
                lemma_text_order(before[i - 1].0, k);
                assert(before.take(i as int).drop_last().push((k, v)) + before.skip(i as int)
                    =~= before.update(i - 1, (k, v)));
            }
            entries.set(i - 1, (key, value));
            proof {
                assert(entry_views(entries@) =~= before.update(i - 1, (k, v)));
            }
        } else {
            proof {
                assert(before.take(i as int).push((k, v)) + before.skip(i as int) =~= before.insert(
                    i as int,
                    (k, v),
                ));
            }
            entries.insert(i, (key, value));
            proof {
                assert(entry_views(entries@) =~= before.insert(i as int, (k, v)));
            }
        }
        *self = Meta { entries };
    }

    /// The same entries again.
    pub fn copy(&self) -> (r: Self)
        ensures
            r@ == self@,
    {
        let mut entries: Vec<(String, String)> = Vec::new();
        let mut i: usize = 0;
        while i < self.entries.len()
            invariant
                i <= self.entries.len(),
                entry_views(entries@) == self@.take(i as int),
            decreases self.entries.len() - i,
        {
            let key = self.entries[i].0.clone();
            let value = self.entries[i].1.clone();
            let ghost before = entry_views(entries@);
            proof {
                assert(self@[i as int] == (key@, value@));
            }
            entries.push((key, value));
            i += 1;
            proof {
                assert(entry_views(entries@) =~= before.push((key@, value@)));
                assert(entry_views(entries@) =~= self@.take(i as int));
            }
        }
        proof {
            use_type_invariant(self);
            assert(self@.take(i as int) =~= self@);
        }
        Meta { entries }
    }
}

impl Clone for Meta {
    fn clone(&self) -> (r: Self)
        ensures
            r@ == self@,
    {
        self.copy()
    }
}

} // verus!
