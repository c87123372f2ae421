//! What makes no difference to how parts and tracks are read and written.
use crate::ascii::SEMICOLON;
use crate::meta::Entry;
use crate::mmi::{has_mark, lower_char, normalized, read_parts, track_of};
use crate::mml::{digit_end, dot_end, header_at, initial, lemma_lex_advances, lex, lower, number_at, perform, read_from, read_part, sign_end, sign_sum, Reading};
use crate::order::{key_less, lemma_stable_sort, sorted_by, Key};
use crate::score::{by_onset, by_tick, lemma_with_all_ascends, onset_key, tempo_key, Tempo, ticks_ascend, Note};
use crate::storage::lemma_normalized;
use crate::text::{index_of, is_digit, lemma_index_of, pieces};
use crate::writer::{notes_fault, part_text};
use vstd::prelude::*;
use vstd::utf8::{encode_scalar, encode_utf8};

verus! {

/// Whether two texts say the same up to a position, capital letters aside, and both end there:
/// with the text or with a semicolon.
pub open spec fn alike(a: Seq<u8>, b: Seq<u8>, n: int) -> bool {
    &&& 0 <= n <= a.len()
    &&& n <= b.len()
    &&& n == a.len() || a[n] == SEMICOLON
    &&& n == b.len() || b[n] == SEMICOLON
    &&& forall|k: int| 0 <= k < n ==> lower(#[trigger] a[k]) == lower(b[k])
}

proof fn lemma_runs(a: Seq<u8>, b: Seq<u8>, n: int, at: int)
    requires
        alike(a, b, n),
        0 <= at <= n,
    ensures
        digit_end(a, at) == digit_end(b, at) <= n,
        dot_end(a, at) == dot_end(b, at) <= n,
        sign_end(a, at) == sign_end(b, at) <= n,
        sign_sum(a, at) == sign_sum(b, at),
        at <= digit_end(a, at) && at <= dot_end(a, at) && at <= sign_end(a, at),
        forall|k: int| at <= k < digit_end(a, at) ==> is_digit(#[trigger] a[k]),
    decreases n - at,
{
    if at < n {
        assert(lower(a[at]) == lower(b[at]));
        lemma_runs(a, b, n, at + 1);
    }
}

proof fn lemma_number(a: Seq<u8>, b: Seq<u8>, n: int, at: int)
    requires
        alike(a, b, n),
        0 <= at <= n,
    ensures
        number_at(a, at) == number_at(b, at),
{
    lemma_runs(a, b, n, at);
    let end = digit_end(a, at);
    assert forall|k: int| at <= k < end implies a[k] == b[k] by {
        assert(is_digit(a[k]));
        assert(lower(a[k]) == lower(b[k]));
    }
    assert(a.subrange(at, end) =~= b.subrange(at, end));
}

proof fn lemma_lex(a: Seq<u8>, b: Seq<u8>, n: int, at: int)
    requires
        alike(a, b, n),
        0 <= at < n,
    ensures
        lex(a, at) == lex(b, at),
        lex(a, at) is Ok ==> lex(a, at)->Ok_0.1 <= n,
{
    let p = at + 1;
    assert(lower(a[at]) == lower(b[at]));
    lemma_runs(a, b, n, p);
    lemma_number(a, b, n, p);
    let q = sign_end(a, p);
    lemma_runs(a, b, n, q);
    lemma_number(a, b, n, q);
    lemma_runs(a, b, n, digit_end(a, p));
    lemma_runs(a, b, n, digit_end(a, q));
}

proof fn lemma_reading(a: Seq<u8>, b: Seq<u8>, n: int, at: int, r: Reading, src: (usize, usize))
    requires
        alike(a, b, n),
        0 <= at <= n,
    ensures
        read_from(a, at, r, src) == read_from(b, at, r, src),
    decreases n - at,
{
    if at < n {
        assert(lower(a[at]) == lower(b[at]));
        assert(header_at(a, at) ==> at + 4 <= n) by {
            if header_at(a, at) && at + 4 > n {
                assert(a[n] == SEMICOLON);
            }
        }
        assert(header_at(b, at) ==> at + 4 <= n) by {
            if header_at(b, at) && at + 4 > n {
                assert(b[n] == SEMICOLON);
            }
        }
        if at + 4 <= n {
            assert(lower(a[at + 1]) == lower(b[at + 1]));
            assert(lower(a[at + 2]) == lower(b[at + 2]));
            assert(lower(a[at + 3]) == lower(b[at + 3]));
        }
        assert(header_at(a, at) == header_at(b, at));
        if a[at] == SEMICOLON {
        } else if header_at(a, at) {
            lemma_reading(a, b, n, at + 4, r, src);
        } else {
            lemma_lex(a, b, n, at);
            lemma_lex_advances(a, at);
            if lex(a, at) is Ok {
                let (command, next) = lex(a, at)->Ok_0;
                if perform(r, command, src) is Ok {
                    lemma_reading(a, b, n, next, perform(r, command, src)->Ok_0, src);
                }
            }
        }
    }
}

/// Texts that say the same up to their ends, capital letters aside, are read alike.
pub proof fn law_alike_texts(a: Seq<u8>, b: Seq<u8>, n: int, src: (usize, usize))
    requires
        alike(a, b, n),
    ensures
        read_part(a, src) == read_part(b, src),
{
    lemma_reading(a, b, n, 0, initial(), src);
}

/// Whether two texts are the same, ASCII capital letters aside.
pub open spec fn same_letters(a: Seq<char>, b: Seq<char>) -> bool {
    a.len() == b.len() && forall|k: int| 0 <= k < a.len() ==> lower_char(#[trigger] a[k]) == lower_char(b[k])
}

proof fn lemma_ascii_scalar(c: char)
    requires
        (c as u32) < 128,
    ensures
        encode_scalar(c as u32) == seq![c as u8],
{
    let u = c as u32;
    assert(u < 128 ==> (u & 0x7f) as u8 == u as u8) by (bit_vector);
    assert(encode_scalar(u) =~= seq![c as u8]);
}

proof fn lemma_encoded_alike(a: Seq<char>, b: Seq<char>)
    requires
        same_letters(a, b),
    ensures
        alike(encode_utf8(a), encode_utf8(b), encode_utf8(a).len() as int),
        encode_utf8(a).len() == encode_utf8(b).len(),
    decreases a.len(),
{
    if a.len() > 0 {
        let x = a.drop_first();
        let y = b.drop_first();
        assert forall|k: int| 0 <= k < x.len() implies lower_char(#[trigger] x[k]) == lower_char(y[k]) by {
            assert(x[k] == a[k + 1] && y[k] == b[k + 1]);
        }
        lemma_encoded_alike(x, y);
        assert(lower_char(a[0]) == lower_char(b[0]));
        let p = encode_scalar(a[0] as u32);
        let q = encode_scalar(b[0] as u32);
        if a[0] != b[0] {
            lemma_ascii_scalar(a[0]);
            lemma_ascii_scalar(b[0]);
        }
        assert(p.len() == q.len());
        let ea = encode_utf8(a);
        let eb = encode_utf8(b);
        assert forall|k: int| 0 <= k < ea.len() implies lower(#[trigger] ea[k]) == lower(eb[k]) by {
            if k >= p.len() {
                assert(ea[k] == encode_utf8(x)[k - p.len()]);
                assert(eb[k] == encode_utf8(y)[k - p.len()]);
            }
        }
    }
}

/// Capital letters are read as small ones.
pub proof fn law_capitals(a: Seq<char>, b: Seq<char>, src: (usize, usize))
    requires
        same_letters(a, b),
    ensures
        read_part(encode_utf8(a), src) == read_part(encode_utf8(b), src),
{
    lemma_encoded_alike(a, b);
    law_alike_texts(encode_utf8(a), encode_utf8(b), encode_utf8(a).len() as int, src);
}

proof fn lemma_encode_concat(a: Seq<char>, b: Seq<char>)
    ensures
        encode_utf8(a + b) == encode_utf8(a) + encode_utf8(b),
    decreases a.len(),
{
    if a.len() == 0 {
        assert(a + b =~= b);
        assert(encode_utf8(a) + encode_utf8(b) =~= encode_utf8(b));
    } else {
        assert((a + b).drop_first() =~= a.drop_first() + b);
        lemma_encode_concat(a.drop_first(), b);
        assert(encode_utf8(a + b) =~= encode_utf8(a) + encode_utf8(b));
    }
}

/// Nothing counts that stands behind a semicolon.
pub proof fn law_semicolon_ends(s: Seq<char>, rest: Seq<char>, src: (usize, usize))
    ensures
        read_part(encode_utf8(s + seq![';'] + rest), src) == read_part(encode_utf8(s), src),
{
    let tail = seq![';'] + rest;
    let a = encode_utf8(s);
    assert(s + seq![';'] + rest =~= s + tail);
    lemma_encode_concat(s, tail);
    lemma_ascii_scalar(';');
    assert(encode_utf8(tail)[0] == SEMICOLON);
    law_alike_texts(encode_utf8(s + tail), a, a.len() as int, src);
}

/// Whether all notes come from one part of the source.
pub open spec fn come_from(notes: Seq<Note>, src: (usize, usize)) -> bool {
    forall|k: int| 0 <= k < notes.len() ==> (#[trigger] notes[k]).src == src
}

proof fn lemma_sources(s: Seq<u8>, at: int, r: Reading, src: (usize, usize))
    requires
        0 <= at,
        come_from(r.notes, src),
        r.held ==> r.notes.len() > 0,
        read_from(s, at, r, src) is Ok,
    ensures
        come_from(read_from(s, at, r, src)->Ok_0.notes, src),
    decreases s.len() - at,
{
    if at >= s.len() || s[at] == SEMICOLON {
    } else if header_at(s, at) {
        lemma_sources(s, at + 4, r, src);
    } else {
        lemma_lex_advances(s, at);
        let (command, next) = lex(s, at)->Ok_0;
        let r2 = perform(r, command, src)->Ok_0;
        assert forall|k: int| 0 <= k < r2.notes.len() implies (#[trigger] r2.notes[k]).src == src by {
            if k < r.notes.len() {
                assert(r.notes[k].src == src);
                if r.notes.len() > 0 {
                    assert(r.notes[r.notes.len() - 1].src == src);
                }
            }
        }
        lemma_sources(s, next, r2, src);
    }
}

/// How often a character stands in a text.
pub open spec fn occurrences(s: Seq<char>, c: char) -> int
    decreases s.len(),
{
    if s.len() == 0 {
        0
    } else {
        occurrences(s.drop_last(), c) + (if s.last() == c {
            1int
        } else {
            0int
        })
    }
}

proof fn lemma_occurrences(a: Seq<char>, b: Seq<char>, c: char)
    ensures
        occurrences(a + b, c) == occurrences(a, c) + occurrences(b, c),
    decreases b.len(),
{
    if b.len() == 0 {
        assert(a + b =~= a);
    } else {
        assert((a + b).drop_last() =~= a + b.drop_last());
        lemma_occurrences(a, b.drop_last(), c);
    }
}

proof fn lemma_no_occurrences(s: Seq<char>, c: char)
    requires
        forall|i: int| 0 <= i < s.len() ==> #[trigger] s[i] != c,
    ensures
        occurrences(s, c) == 0,
    decreases s.len(),
{
    if s.len() > 0 {
        lemma_no_occurrences(s.drop_last(), c);
    }
}

/// A text has one piece more than there are characters that part it.
pub proof fn law_piece_count(s: Seq<char>, c: char)
    ensures
        pieces(s, c).len() == occurrences(s, c) + 1,
    decreases s.len(),
{
    let i = index_of(s, c, 0);
    lemma_index_of(s, c, 0);
    if i >= s.len() {
        lemma_no_occurrences(s, c);
    } else {
        law_piece_count(s.skip(i + 1), c);
        assert(s =~= s.take(i) + (seq![c] + s.skip(i + 1)));
        lemma_occurrences(s.take(i), seq![c] + s.skip(i + 1), c);
        lemma_occurrences(seq![c], s.skip(i + 1), c);
        lemma_no_occurrences(s.take(i), c);
        assert(seq![c].drop_last() =~= Seq::<char>::empty());
        assert(occurrences(seq![c].drop_last(), c) == 0);
        assert(seq![c].last() == c);
        assert(occurrences(seq![c], c) == 1);
    }
}

proof fn lemma_parts(texts: Seq<Seq<char>>, track: usize, n: int)
    requires
        0 <= n,
        read_parts(texts, track, n) is Ok,
    ensures
        read_parts(texts, track, n)->Ok_0.0.len() == n,
        forall|p: int|
            0 <= p < n ==> come_from(
                #[trigger] read_parts(texts, track, n)->Ok_0.0[p],
                (track, p as usize),
            ),
        ticks_ascend(read_parts(texts, track, n)->Ok_0.1),
    decreases n,
{
    if n > 0 {
        lemma_parts(texts, track, n - 1);
        let (parts, tempos) = read_parts(texts, track, n - 1)->Ok_0;
        let src = (track, (n - 1) as usize);
        let part = read_part(encode_utf8(texts[n - 1]), src)->Ok_0;
        lemma_sources(encode_utf8(texts[n - 1]), 0, initial(), src);
        lemma_with_all_ascends(tempos, part.tempos);
        let all = read_parts(texts, track, n)->Ok_0.0;
        assert forall|p: int| 0 <= p < n implies come_from(#[trigger] all[p], (track, p as usize)) by {
            if p < n - 1 {
                assert(all[p] == parts[p]);
            }
        }
    }
}

/// A track that was read holds its text between its marks, and reading that text again gives the
/// same track. It has one part more than its text has commas, every note comes from its own part,
/// and the tempos follow one another in time.
pub proof fn law_own_text(mml: Seq<char>, meta: Seq<Entry>, index: usize)
    requires
        track_of(mml, meta, index) is Ok,
    ensures
        ({
            let t = track_of(mml, meta, index)->Ok_0;
            &&& track_of(t.mml, meta, index) == track_of(mml, meta, index)
            &&& has_mark(t.mml)
            &&& t.mml.last() == ';'
            &&& t.meta == meta
            &&& t.parts.len() == occurrences(t.mml, ',') + 1
            &&& forall|p: int|
                0 <= p < t.parts.len() ==> come_from(#[trigger] t.parts[p], (index, p as usize))
            &&& ticks_ascend(t.tempos)
        }),
{
    lemma_normalized(mml);
    let text = normalized(mml);
    law_piece_count(text, ',');
    lemma_parts(pieces(text, ','), index, pieces(text, ',').len() as int);
}

/// Whether items of one key are one item.
pub open spec fn keys_tell<T>(s: Seq<T>, key: spec_fn(T) -> Key) -> bool {
    forall|i: int, j: int|
        #![trigger s[i], s[j]]
        0 <= i < s.len() && 0 <= j < s.len() && key(s[i]) == key(s[j]) ==> s[i] == s[j]
}

proof fn lemma_one_order<T>(a: Seq<T>, b: Seq<T>, key: spec_fn(T) -> Key)
    requires
        sorted_by(a, key),
        sorted_by(b, key),
        a.to_multiset() == b.to_multiset(),
        keys_tell(a, key),
    ensures
        a == b,
    decreases a.len(),
{
    broadcast use vstd::seq_lib::group_to_multiset_ensures;

    assert(a.len() == a.to_multiset().len());
    assert(b.len() == b.to_multiset().len());
    if a.len() > 0 {
        let n = a.len() - 1;
        let x = a.drop_last();
        let y = b.drop_last();
        assert(a =~= x.push(a[n]));
        assert(b =~= y.push(b[n]));
        assert(a.contains(b[n])) by {
            assert(b.contains(b[n]));
            assert(b.to_multiset().count(b[n]) > 0);
        }
        assert(b.contains(a[n])) by {
            assert(a.contains(a[n]));
            assert(a.to_multiset().count(a[n]) > 0);
        }
        let i = choose|i: int| 0 <= i < a.len() && a[i] == b[n];
        let j = choose|j: int| 0 <= j < b.len() && b[j] == a[n];
        assert(!key_less(key(a[n]), key(a[i])));
        assert(!key_less(key(b[n]), key(b[j])));
        assert(key(a[i]) == key(a[n]));
        assert(a[n] == b[n]);
        assert(x.to_multiset() =~= a.to_multiset().remove(a[n])) by {
            assert(a.to_multiset() =~= x.to_multiset().insert(a[n]));
        }
        assert(y.to_multiset() =~= b.to_multiset().remove(b[n])) by {
            assert(b.to_multiset() =~= y.to_multiset().insert(b[n]));
        }
        assert forall|p: int, q: int|
            #![trigger x[p], x[q]]
            0 <= p <= q < x.len() implies !key_less(key(x[q]), key(x[p])) by {
            assert(x[p] == a[p] && x[q] == a[q]);
        }
        assert forall|p: int, q: int|
            #![trigger y[p], y[q]]
            0 <= p <= q < y.len() implies !key_less(key(y[q]), key(y[p])) by {
            assert(y[p] == b[p] && y[q] == b[q]);
        }
        assert forall|p: int, q: int|
            #![trigger x[p], x[q]]
            0 <= p < x.len() && 0 <= q < x.len() && key(x[p]) == key(x[q]) implies x[p] == x[q] by {
            assert(x[p] == a[p] && x[q] == a[q]);
        }
        lemma_one_order(x, y, key);
    } else {
        assert(a =~= b);
    }
}

proof fn lemma_onsets_ascend(notes: Seq<Note>, i: int)
    requires
        0 <= i,
        notes_fault(notes, i) is None,
    ensures
        forall|k: int| i <= k < notes.len() ==> (#[trigger] notes[k]).on < notes[k].off,
        forall|k: int| i < k < notes.len() ==> notes[k - 1].off <= (#[trigger] notes[k]).on,
    decreases notes.len() - i,
{
    if i < notes.len() {
        lemma_onsets_ascend(notes, i + 1);
    }
}

proof fn lemma_onsets_differ(notes: Seq<Note>, i: int, j: int)
    requires
        0 <= i < j < notes.len(),
        notes_fault(notes, 0) is None,
    ensures
        notes[i].on < notes[j].on,
    decreases j - i,
{
    lemma_onsets_ascend(notes, 0);
    assert(notes[j - 1].on < notes[j - 1].off);
    assert(notes[j - 1].off <= notes[j].on);
    if i < j - 1 {
        lemma_onsets_differ(notes, i, j - 1);
    }
}

proof fn lemma_order_of_notes(a: Seq<Note>, b: Seq<Note>)
    requires
        a.to_multiset() == b.to_multiset(),
        notes_fault(by_onset(a), 0) is None,
    ensures
        by_onset(a) == by_onset(b),
{
    let key = |n: Note| onset_key(n);
    let x = by_onset(a);
    lemma_stable_sort(a, key);
    lemma_stable_sort(b, key);
    assert forall|i: int, j: int|
        #![trigger x[i], x[j]]
        0 <= i < x.len() && 0 <= j < x.len() && key(x[i]) == key(x[j]) implies x[i] == x[j] by {
        if i < j {
            lemma_onsets_differ(x, i, j);
        } else if j < i {
            lemma_onsets_differ(x, j, i);
        }
    }
    lemma_one_order(x, by_onset(b), key);
}

proof fn lemma_order_of_tempos(a: Seq<Tempo>, b: Seq<Tempo>)
    requires
        a.to_multiset() == b.to_multiset(),
    ensures
        by_tick(a) == by_tick(b),
{
    let key = |t: Tempo| tempo_key(t);
    lemma_stable_sort(a, key);
    lemma_stable_sort(b, key);
    lemma_one_order(by_tick(a), by_tick(b), key);
}

/// Neither the order in which notes and tempos are given nor the end that is given with them
/// makes a difference to the text of a part: either both can be written, and in the same way, or
/// neither can.
pub proof fn law_order_and_end(
    notes: Seq<Note>,
    tempos: Seq<Tempo>,
    total: int,
    other_notes: Seq<Note>,
    other_tempos: Seq<Tempo>,
    other_total: int,
)
    requires
        notes.to_multiset() == other_notes.to_multiset(),
        tempos.to_multiset() == other_tempos.to_multiset(),
        total >= 0,
        other_total >= 0,
    ensures
        (part_text(notes, tempos, total) is Ok) == (part_text(
            other_notes,
            other_tempos,
            other_total,
        ) is Ok),
        part_text(notes, tempos, total) is Ok ==> part_text(notes, tempos, total) == part_text(
            other_notes,
            other_tempos,
            other_total,
        ),
{
    lemma_order_of_tempos(tempos, other_tempos);
    if notes_fault(by_onset(notes), 0) is None {
        lemma_order_of_notes(notes, other_notes);
    } else if notes_fault(by_onset(other_notes), 0) is None {
        lemma_order_of_notes(other_notes, notes);
    }
}

} // verus!
