//! Reading what has been stored: the text of a score gives the score back.
use crate::meta::{
    ascending, entry_of, law_entries, lemma_text_order, text_less, with_entry, Entry,
};
use crate::mmi::{and_under, completed, entry_line, gathered, has_mark, is_placed, lines_of, normalized, nothing_gathered, others, score_lines, score_of, score_text, track_lines, track_of, tracks_lines, with_next, written_order, Gathered, MmiFault, TrackError};
use crate::score::{ScoreView, TrackView};
use crate::text::{
    begins_with, cut, index_of, is_space, joined, lemma_index_of, pieces, trimmed, without_back,
    without_front,
};
use vstd::prelude::*;

verus! {

/// Whether a line can stand in a text as it is.
pub open spec fn is_line(line: Seq<char>) -> bool {
    !line.contains('\n') && (line.len() > 0 ==> line.last() != '\r')
}

/// Whether an entry is read back from its line.
pub open spec fn is_entry(e: Entry) -> bool {
    &&& !e.0.contains('=')
    &&& !e.0.contains('\n')
    &&& e.0 != "mml-track"@
    &&& (e.0.len() > 0 ==> e.0[0] != '[')
    &&& is_line(e.1)
}

/// Whether a track is the one that its MML writes, and its entries can be stored.
pub open spec fn is_stored_track(track: TrackView, index: usize) -> bool {
    &&& track_of(track.mml, track.meta, index) == Ok::<TrackView, TrackError>(track)
    &&& !track.mml.contains('\n')
    &&& ascending(track.meta)
    &&& forall|i: int| 0 <= i < track.meta.len() ==> is_entry(#[trigger] track.meta[i])
}

/// Whether a line can stand before or behind the tracks.
pub open spec fn is_outer_line(line: Seq<char>) -> bool {
    is_line(line) && !begins_with(line, "mml-track="@)
}

/// Whether the head and the tracks of a score can be stored.
pub open spec fn has_stored_body(score: ScoreView) -> bool {
    &&& score.head.len() + score.tracks.len() > 0
    &&& forall|i: int| 0 <= i < score.head.len() ==> is_outer_line(#[trigger] score.head[i])
    &&& score.head.len() > 0 && score.head[0].len() > 0 ==> score.head[0][0] != '\u{feff}'
    &&& forall|i: int|
        0 <= i < score.tracks.len() ==> is_stored_track(#[trigger] score.tracks[i], i as usize)
    &&& forall|i: int| 0 <= i < score.tail.len() ==> is_outer_line(#[trigger] score.tail[i])
    &&& score.tracks.len() <= usize::MAX
}

/// Whether the lines behind the tracks are told apart from the entries of the last track.
pub open spec fn has_stored_tail(score: ScoreView) -> bool {
    score.tail.len() > 0 ==> {
        &&& score.tracks.len() > 0
        &&& entry_of(score.tracks.last().meta, "visible"@) is Some || (score.tail[0].len() > 0
            && score.tail[0][0] == '[')
    }
}

proof fn lemma_no_occurrence(s: Seq<char>, c: char, from: int)
    requires
        !s.contains(c),
        0 <= from <= s.len(),
    ensures
        index_of(s, c, from) == s.len(),
    decreases s.len() - from,
{
    if from < s.len() {
        assert(s[from] != c) by {
            if s[from] == c {
                assert(s.contains(c));
            }
        }
        lemma_no_occurrence(s, c, from + 1);
    }
}

proof fn lemma_index_prefix(a: Seq<char>, b: Seq<char>, c: char, from: int)
    requires
        0 <= from <= a.len(),
    ensures
        index_of(a, c, from) < a.len() ==> index_of(a + b, c, from) == index_of(a, c, from),
        index_of(a, c, from) == a.len() ==> index_of(a + b, c, from) == index_of(
            a + b,
            c,
            a.len() as int,
        ),
    decreases a.len() - from,
{
    lemma_index_of(a, c, from);
    if from < a.len() {
        assert((a + b)[from] == a[from]);
        if a[from] != c {
            lemma_index_prefix(a, b, c, from + 1);
        }
    }
}

proof fn lemma_pieces_push(a: Seq<char>, b: Seq<char>, c: char)
    requires
        !b.contains(c),
    ensures
        pieces(a + seq![c] + b, c) == pieces(a, c).push(b),
    decreases a.len(),
{
    let s = a + seq![c] + b;
    let t = seq![c] + b;
    assert(s =~= a + t);
    lemma_index_of(a, c, 0);
    lemma_index_prefix(a, t, c, 0);
    let i = index_of(a, c, 0);
    if i < a.len() {
        lemma_pieces_push(a.skip(i + 1), b, c);
        assert(s.skip(i + 1) =~= a.skip(i + 1) + seq![c] + b);
        assert(s.take(i) =~= a.take(i));
        assert(pieces(s, c) =~= pieces(a, c).push(b));
    } else {
        assert(s[a.len() as int] == c);
        assert(index_of(s, c, 0) == a.len());
        assert(s.take(a.len() as int) =~= a);
        assert(s.skip(a.len() as int + 1) =~= b);
        lemma_no_occurrence(b, c, 0);
        assert(pieces(b, c) =~= seq![b]);
        assert(pieces(s, c) =~= seq![a] + seq![b]);
        assert(pieces(a, c) =~= seq![a]);
        assert(pieces(s, c) =~= pieces(a, c).push(b));
    }
}

/// Joined texts come apart again where none of them holds what joins them.
pub proof fn law_joined_pieces(parts: Seq<Seq<char>>, c: char)
    requires
        parts.len() > 0,
        forall|i: int| 0 <= i < parts.len() ==> !(#[trigger] parts[i]).contains(c),
    ensures
        pieces(joined(parts, c), c) == parts,
    decreases parts.len(),
{
    if parts.len() == 1 {
        assert(!parts[0].contains(c));
        lemma_no_occurrence(parts[0], c, 0);
        assert(pieces(parts[0], c) =~= parts);
    } else {
        let front = parts.drop_last();
        assert forall|i: int| 0 <= i < front.len() implies !(#[trigger] front[i]).contains(c) by {
            assert(front[i] == parts[i]);
        }
        law_joined_pieces(front, c);
        assert(!parts[parts.len() - 1].contains(c));
        lemma_pieces_push(joined(front, c), parts.last(), c);
        assert(front.push(parts.last()) =~= parts);
    }
}

proof fn lemma_joined_behind(x: Seq<char>, rest: Seq<Seq<char>>, c: char)
    requires
        rest.len() > 0,
    ensures
        joined(seq![x] + rest, c) == x + seq![c] + joined(rest, c),
    decreases rest.len(),
{
    let all = seq![x] + rest;
    if rest.len() == 1 {
        assert(all.drop_last() =~= seq![x]);
        assert(joined(seq![x], c) == x);
        assert(all.last() == rest[0]);
    } else {
        lemma_joined_behind(x, rest.drop_last(), c);
        assert(all.drop_last() =~= seq![x] + rest.drop_last());
        assert(joined(all, c) =~= x + seq![c] + joined(rest, c));
    }
}

/// The pieces that a text comes apart into make up the text again.
pub proof fn law_pieces_joined(s: Seq<char>, c: char)
    ensures
        joined(pieces(s, c), c) == s,
        pieces(s, c).len() > 0,
    decreases s.len(),
{
    let i = index_of(s, c, 0);
    lemma_index_of(s, c, 0);
    if 0 <= i < s.len() {
        law_pieces_joined(s.skip(i + 1), c);
        lemma_joined_behind(s.take(i), pieces(s.skip(i + 1), c), c);
        assert(s =~= s.take(i) + seq![c] + s.skip(i + 1));
    }
}

proof fn lemma_joined_front(parts: Seq<Seq<char>>, c: char)
    requires
        parts.len() > 0,
    ensures
        parts[0].len() > 0 ==> joined(parts, c).len() > 0 && joined(parts, c)[0] == parts[0][0],
        parts[0].len() == 0 && parts.len() > 1 ==> joined(parts, c).len() > 0 && joined(
            parts,
            c,
        )[0] == c,
        parts[0].len() == 0 && parts.len() == 1 ==> joined(parts, c).len() == 0,
    decreases parts.len(),
{
    if parts.len() > 1 {
        lemma_joined_front(parts.drop_last(), c);
        assert(parts.drop_last()[0] == parts[0]);
    }
}

/// The value that is found is the one of an entry with that key.
proof fn lemma_entry_of(entries: Seq<Entry>, key: Seq<char>)
    ensures
        entry_of(entries, key) is Some <==> exists|i: int|
            0 <= i < entries.len() && (#[trigger] entries[i]).0 == key,
        entry_of(entries, key) matches Some(v) ==> exists|i: int|
            0 <= i < entries.len() && #[trigger] entries[i] == (key, v),
    decreases entries.len(),
{
    if entries.len() > 0 {
        let front = entries.drop_last();
        let n = entries.len() as int;
        lemma_entry_of(front, key);
        if entries.last().0 == key {
            assert(entries[n - 1].0 == key);
            assert(entries[n - 1] == (key, entries.last().1));
        } else {
            if entry_of(front, key) is Some {
                let v = entry_of(front, key)->Some_0;
                let i = choose|i: int| 0 <= i < front.len() && #[trigger] front[i] == (key, v);
                assert(entries[i] == (key, v));
                assert(entries[i].0 == key);
            }
            if exists|i: int| 0 <= i < n && (#[trigger] entries[i]).0 == key {
                let i = choose|i: int| 0 <= i < n && (#[trigger] entries[i]).0 == key;
                assert(front[i].0 == key);
            }
        }
    }
}

proof fn lemma_ascending_front(entries: Seq<Entry>)
    requires
        ascending(entries),
        entries.len() > 0,
    ensures
        ascending(entries.drop_last()),
        entry_of(entries.drop_last(), entries.last().0) is None,
{
    let front = entries.drop_last();
    assert forall|i: int, j: int|
        #![trigger front[i], front[j]]
        0 <= i < j < front.len() implies text_less(front[i].0, front[j].0) by {
        assert(front[i] == entries[i] && front[j] == entries[j]);
    }
    lemma_entry_of(front, entries.last().0);
    if entry_of(front, entries.last().0) is Some {
        let i = choose|i: int| 0 <= i < front.len() && (#[trigger] front[i]).0 == entries.last().0;
        assert(entries[i].0 == entries[entries.len() - 1].0);
        assert(text_less(entries[i].0, entries[entries.len() - 1].0));
        lemma_text_order(entries[i].0, entries[i].0);
    }
}

/// Two lists of entries whose keys ascend are the same where they hold the same values.
proof fn lemma_same_entries(a: Seq<Entry>, b: Seq<Entry>)
    requires
        ascending(a),
        ascending(b),
        forall|k: Seq<char>| #[trigger] entry_of(a, k) == entry_of(b, k),
    ensures
        a == b,
    decreases a.len(),
{
    if a.len() == 0 {
        if b.len() > 0 {
            assert(entry_of(a, b.last().0) == entry_of(b, b.last().0));
        }
        assert(a =~= b);
    } else {
        let ka = a.last().0;
        assert(entry_of(a, ka) == Some(a.last().1));
        assert(entry_of(b, ka) == Some(a.last().1));
        lemma_entry_of(b, ka);
        assert(b.len() > 0);
        let kb = b.last().0;
        assert(entry_of(a, kb) == entry_of(b, kb));
        lemma_entry_of(a, kb);
        let i = choose|i: int| 0 <= i < b.len() && (#[trigger] b[i]).0 == ka;
        let j = choose|j: int| 0 <= j < a.len() && (#[trigger] a[j]).0 == kb;
        lemma_text_order(ka, kb);
        if i < b.len() - 1 {
            assert(text_less(b[i].0, b[b.len() - 1].0));
        }
        if j < a.len() - 1 {
            assert(text_less(a[j].0, a[a.len() - 1].0));
        }
        assert(ka == kb);
        lemma_ascending_front(a);
        lemma_ascending_front(b);
        let (fa, fb) = (a.drop_last(), b.drop_last());
        assert forall|k: Seq<char>| #[trigger] entry_of(fa, k) == entry_of(fb, k) by {
            assert(entry_of(a, k) == entry_of(b, k));
        }
        lemma_same_entries(fa, fb);
        assert(a =~= fa.push(a.last()));
        assert(b =~= fb.push(b.last()));
    }
}

/// Entries put in one after the other.
spec fn put_all(base: Seq<Entry>, list: Seq<Entry>) -> Seq<Entry>
    decreases list.len(),
{
    if list.len() == 0 {
        base
    } else {
        with_entry(put_all(base, list.drop_last()), list.last().0, list.last().1)
    }
}

proof fn lemma_put_all(base: Seq<Entry>, list: Seq<Entry>, key: Seq<char>)
    requires
        ascending(base),
    ensures
        ascending(put_all(base, list)),
        entry_of(put_all(base, list), key) == (match entry_of(list, key) {
            Some(v) => Some(v),
            None => entry_of(base, key),
        }),
    decreases list.len(),
{
    if list.len() > 0 {
        lemma_put_all(base, list.drop_last(), key);
        law_entries(put_all(base, list.drop_last()), list.last().0, list.last().1, key);
    }
}

proof fn lemma_entry_of_push(list: Seq<Entry>, e: Entry, key: Seq<char>)
    ensures
        entry_of(list.push(e), key) == (if e.0 == key {
            Some(e.1)
        } else {
            entry_of(list, key)
        }),
{
    assert(list.push(e).drop_last() =~= list);
}

proof fn lemma_entry_of_append(a: Seq<Entry>, b: Seq<Entry>, key: Seq<char>)
    ensures
        entry_of(a + b, key) == (match entry_of(b, key) {
            Some(v) => Some(v),
            None => entry_of(a, key),
        }),
    decreases b.len(),
{
    if b.len() == 0 {
        assert(a + b =~= a);
    } else {
        lemma_entry_of_append(a, b.drop_last(), key);
        assert((a + b).drop_last() =~= a + b.drop_last());
    }
}

proof fn lemma_others(meta: Seq<Entry>, key: Seq<char>)
    ensures
        entry_of(others(meta), key) == (if is_placed(key) {
            None
        } else {
            entry_of(meta, key)
        }),
        forall|i: int|
            0 <= i < others(meta).len() ==> meta.contains(#[trigger] others(meta)[i])
                && !is_placed(others(meta)[i].0),
    decreases meta.len(),
{
    if meta.len() > 0 {
        let front = meta.drop_last();
        lemma_others(front, key);
        let list = others(meta);
        if !is_placed(meta.last().0) {
            lemma_entry_of_push(others(front), meta.last(), key);
        }
        assert forall|i: int| 0 <= i < list.len() implies meta.contains(#[trigger] list[i])
            && !is_placed(list[i].0) by {
            if i < others(front).len() {
                assert(list[i] == others(front)[i]);
                let k = choose|k: int| 0 <= k < front.len() && front[k] == list[i];
                assert(meta[k] == list[i]);
            } else {
                assert(meta[meta.len() - 1] == list[i]);
            }
        }
    }
}

/// The entries that stand before the one that completes a track.
spec fn front_order(meta: Seq<Entry>) -> Seq<Entry> {
    and_under(
        and_under(
            and_under(and_under(Seq::empty(), meta, "name"@), meta, "program"@),
            meta,
            "songProgram"@,
        ),
        meta,
        "panpot"@,
    ) + others(meta)
}

proof fn lemma_keys_differ()
    ensures
        "name"@ != "visible"@,
        "program"@ != "visible"@,
        "songProgram"@ != "visible"@,
        "panpot"@ != "visible"@,
        "name"@ != "program"@,
        "name"@ != "songProgram"@,
        "name"@ != "panpot"@,
        "program"@ != "songProgram"@,
        "program"@ != "panpot"@,
        "songProgram"@ != "panpot"@,
{
    reveal_strlit("name");
    reveal_strlit("program");
    reveal_strlit("songProgram");
    reveal_strlit("panpot");
    reveal_strlit("visible");
    assert("name"@.len() == 4 && "program"@.len() == 7 && "songProgram"@.len() == 11
        && "panpot"@.len() == 6 && "visible"@.len() == 7);
    assert("program"@[0] == 'p' && "visible"@[0] == 'v');
}

proof fn lemma_and_under(list: Seq<Entry>, meta: Seq<Entry>, under: Seq<char>, key: Seq<char>)
    ensures
        entry_of(and_under(list, meta, under), key) == (if key == under && entry_of(meta, under)
            is Some {
            entry_of(meta, key)
        } else {
            entry_of(list, key)
        }),
        forall|i: int|
            0 <= i < and_under(list, meta, under).len() ==> (i < list.len() && #[trigger] and_under(
                list,
                meta,
                under,
            )[i] == list[i]) || (and_under(list, meta, under)[i].0 == under && meta.contains(
                and_under(list, meta, under)[i],
            )),
{
    match entry_of(meta, under) {
        Some(value) => {
            lemma_entry_of_push(list, (under, value), key);
            lemma_entry_of(meta, under);
        },
        None => {},
    }
}

/// The written order holds the entries of a track and no others.
proof fn lemma_written_order(meta: Seq<Entry>, key: Seq<char>)
    ensures
        entry_of(written_order(meta), key) == entry_of(meta, key),
        written_order(meta) == and_under(front_order(meta), meta, "visible"@),
        forall|i: int|
            0 <= i < front_order(meta).len() ==> meta.contains(#[trigger] front_order(meta)[i])
                && front_order(meta)[i].0 != "visible"@,
{
    lemma_keys_differ();
    let none = Seq::<Entry>::empty();
    let e1 = and_under(none, meta, "name"@);
    let e2 = and_under(e1, meta, "program"@);
    let e3 = and_under(e2, meta, "songProgram"@);
    let e4 = and_under(e3, meta, "panpot"@);
    lemma_and_under(none, meta, "name"@, key);
    lemma_and_under(e1, meta, "program"@, key);
    lemma_and_under(e2, meta, "songProgram"@, key);
    lemma_and_under(e3, meta, "panpot"@, key);
    lemma_others(meta, key);
    lemma_entry_of_append(e4, others(meta), key);
    lemma_and_under(e4 + others(meta), meta, "visible"@, key);
    let f = front_order(meta);
    assert(f == e4 + others(meta));
    assert forall|i: int| 0 <= i < f.len() implies meta.contains(#[trigger] f[i]) && f[i].0
        != "visible"@ by {
        if i < e4.len() {
            assert(f[i] == e4[i]);
            if i < e3.len() {
                if i < e2.len() {
                    if i < e1.len() {
                        assert(e1[i].0 == "name"@);
                    }
                }
            }
        } else {
            assert(f[i] == others(meta)[i - e4.len()]);
        }
    }
}

/// Putting the entries of a track in as they are written gives them in order again.
proof fn lemma_order_restored(meta: Seq<Entry>)
    requires
        ascending(meta),
    ensures
        put_all(Seq::empty(), written_order(meta)) == meta,
{
    let none = Seq::<Entry>::empty();
    assert(ascending(none));
    assert forall|k: Seq<char>|
        #[trigger] entry_of(put_all(none, written_order(meta)), k) == entry_of(meta, k) by {
        lemma_put_all(none, written_order(meta), k);
        lemma_written_order(meta, k);
    }
    lemma_put_all(none, written_order(meta), "name"@);
    lemma_same_entries(put_all(none, written_order(meta)), meta);
}

/// What further lines make of what has been gathered.
spec fn run(g: Gathered, lines: Seq<Seq<char>>) -> Result<Gathered, MmiFault>
    decreases lines.len(),
{
    if lines.len() == 0 {
        Ok(g)
    } else {
        match run(g, lines.drop_last()) {
            Err(e) => Err(e),
            Ok(h) => with_next(h, lines.last()),
        }
    }
}

proof fn lemma_run_append(g: Gathered, a: Seq<Seq<char>>, b: Seq<Seq<char>>)
    requires
        run(g, a) is Ok,
    ensures
        run(g, a + b) == run(run(g, a)->Ok_0, b),
    decreases b.len(),
{
    if b.len() == 0 {
        assert(a + b =~= a);
    } else {
        lemma_run_append(g, a, b.drop_last());
        assert((a + b).drop_last() =~= a + b.drop_last());
    }
}

proof fn lemma_gathered_run(lines: Seq<Seq<char>>, n: int)
    requires
        0 <= n <= lines.len(),
    ensures
        gathered(lines, n) == run(nothing_gathered(), lines.take(n)),
    decreases n,
{
    if n > 0 {
        lemma_gathered_run(lines, n - 1);
        assert(lines.take(n).drop_last() =~= lines.take(n - 1));
    }
}

proof fn lemma_head(head: Seq<Seq<char>>)
    requires
        forall|i: int| 0 <= i < head.len() ==> is_outer_line(#[trigger] head[i]),
    ensures
        run(nothing_gathered(), head) == Ok::<Gathered, MmiFault>(
            Gathered { head, ..nothing_gathered() },
        ),
    decreases head.len(),
{
    if head.len() == 0 {
        assert(Gathered { head, ..nothing_gathered() } =~= nothing_gathered());
    } else {
        let front = head.drop_last();
        assert forall|i: int| 0 <= i < front.len() implies is_outer_line(#[trigger] front[i]) by {
            assert(front[i] == head[i]);
        }
        lemma_head(front);
        assert(is_outer_line(head[head.len() - 1]));
        assert(front.push(head.last()) =~= head);
    }
}

proof fn lemma_no_track_line(e: Entry)
    requires
        !e.0.contains('='),
        e.0 != "mml-track"@,
    ensures
        !begins_with(entry_line(e.0, e.1), "mml-track="@),
{
    let line = entry_line(e.0, e.1);
    let p = "mml-track="@;
    reveal_strlit("mml-track=");
    reveal_strlit("mml-track");
    if begins_with(line, p) {
        assert(p.len() == 10 && p[9] == '=');
        assert forall|i: int| 0 <= i < 10 implies #[trigger] line[i] == p[i] by {
            assert(line.take(10)[i] == p[i]);
        }
        if e.0.len() < 9 {
            assert(line[e.0.len() as int] == '=');
            assert(p[e.0.len() as int] != '=');
        } else if e.0.len() > 9 {
            assert(e.0[9] == line[9]);
            assert(e.0.contains('='));
        } else {
            let q = "mml-track"@;
            assert forall|i: int| 0 <= i < 9 implies e.0[i] == q[i] by {
                assert(e.0[i] == line[i]);
                assert(p[i] == q[i]);
            }
            assert(e.0 =~= q);
        }
    }
}

/// The line of an entry is read as that entry.
proof fn lemma_entry_line(e: Entry)
    requires
        is_entry(e),
    ensures
        cut(entry_line(e.0, e.1), '=') == Some(e),
        !begins_with(entry_line(e.0, e.1), "mml-track="@),
        entry_line(e.0, e.1)[0] != '[',
        is_line(entry_line(e.0, e.1)),
{
    let line = entry_line(e.0, e.1);
    let rest = seq!['='] + e.1;
    assert(line =~= e.0 + rest);
    lemma_no_occurrence(e.0, '=', 0);
    lemma_index_prefix(e.0, rest, '=', 0);
    assert(line[e.0.len() as int] == '=');
    assert(line.take(e.0.len() as int) =~= e.0);
    assert(line.skip(e.0.len() as int + 1) =~= e.1);
    lemma_no_track_line(e);
    if line.contains('\n') {
        let i = choose|i: int| 0 <= i < line.len() && line[i] == '\n';
        if i < e.0.len() {
            assert(e.0[i] == '\n');
            assert(e.0.contains('\n'));
        } else if i > e.0.len() {
            assert(e.1[i - e.0.len() - 1] == '\n');
            assert(e.1.contains('\n'));
        }
    }
    if e.1.len() > 0 {
        assert(line.last() == e.1.last());
    }
}

spec fn entry_lines(list: Seq<Entry>) -> Seq<Seq<char>> {
    list.map_values(|e: Entry| entry_line(e.0, e.1))
}

/// The lines of entries are put in one after the other.
proof fn lemma_entries(g: Gathered, mml: Seq<char>, meta: Seq<Entry>, list: Seq<Entry>)
    requires
        g.current == Some((mml, meta)),
        forall|i: int|
            0 <= i < list.len() ==> is_entry(#[trigger] list[i]) && list[i].0 != "visible"@,
    ensures
        run(g, entry_lines(list)) == Ok::<Gathered, MmiFault>(
            Gathered { current: Some((mml, put_all(meta, list))), ..g },
        ),
    decreases list.len(),
{
    let lines = entry_lines(list);
    if list.len() == 0 {
        assert(lines =~= Seq::<Seq<char>>::empty());
        assert(Gathered { current: Some((mml, put_all(meta, list))), ..g } =~= g);
    } else {
        let front = list.drop_last();
        assert forall|i: int| 0 <= i < front.len() implies is_entry(#[trigger] front[i])
            && front[i].0 != "visible"@ by {
            assert(front[i] == list[i]);
        }
        lemma_entries(g, mml, meta, front);
        assert(lines.drop_last() =~= entry_lines(front));
        let e = list[list.len() - 1];
        assert(is_entry(e) && e.0 != "visible"@);
        lemma_entry_line(e);
        assert(lines.last() == entry_line(e.0, e.1));
    }
}

spec fn is_visible(track: TrackView) -> bool {
    entry_of(track.meta, "visible"@) is Some
}

/// What has been gathered behind the lines of the first tracks.
spec fn after_tracks(head: Seq<Seq<char>>, tracks: Seq<TrackView>, n: int) -> Gathered {
    let base = Gathered { head, seen: n > 0, ..nothing_gathered() };
    if n <= 0 {
        base
    } else if is_visible(tracks[n - 1]) {
        Gathered { tracks: tracks.take(n), ..base }
    } else {
        Gathered {
            tracks: tracks.take(n - 1),
            current: Some((tracks[n - 1].mml, tracks[n - 1].meta)),
            ..base
        }
    }
}

spec fn stored_tracks(tracks: Seq<TrackView>) -> bool {
    &&& forall|i: int| 0 <= i < tracks.len() ==> is_stored_track(#[trigger] tracks[i], i as usize)
    &&& tracks.len() <= usize::MAX
}

proof fn lemma_completed(head: Seq<Seq<char>>, tracks: Seq<TrackView>, n: int)
    requires
        stored_tracks(tracks),
        0 <= n <= tracks.len(),
    ensures
        completed(after_tracks(head, tracks, n)) == Ok::<Gathered, MmiFault>(
            Gathered { head, tracks: tracks.take(n), seen: n > 0, ..nothing_gathered() },
        ),
{
    if n > 0 {
        assert(is_stored_track(tracks[n - 1], (n - 1) as usize));
        assert(tracks.take(n - 1).push(tracks[n - 1]) =~= tracks.take(n));
    } else {
        assert(tracks.take(n) =~= Seq::<TrackView>::empty());
    }
}

/// The lines of one more track complete it, or leave nothing but its end to come.
proof fn lemma_track(head: Seq<Seq<char>>, tracks: Seq<TrackView>, n: int)
    requires
        stored_tracks(tracks),
        0 <= n < tracks.len(),
    ensures
        run(after_tracks(head, tracks, n), track_lines(tracks[n])) == Ok::<Gathered, MmiFault>(
            after_tracks(head, tracks, n + 1),
        ),
{
    let track = tracks[n];
    let g = after_tracks(head, tracks, n);
    assert(is_stored_track(track, n as usize));
    lemma_completed(head, tracks, n);
    let done = completed(g)->Ok_0;
    let prefix = "mml-track="@;
    let opening = prefix + track.mml;
    assert(opening.take(prefix.len() as int) =~= prefix);
    assert(opening.skip(prefix.len() as int) =~= track.mml);
    let opened = Gathered { current: Some((track.mml, Seq::empty())), seen: true, ..done };
    assert(with_next(g, opening) == Ok::<Gathered, MmiFault>(opened));
    let first = seq![opening];
    assert(first.drop_last() =~= Seq::<Seq<char>>::empty());
    assert(run(g, first.drop_last()) == Ok::<Gathered, MmiFault>(g));
    assert(run(g, first) == Ok::<Gathered, MmiFault>(opened));
    let order = written_order(track.meta);
    let front = front_order(track.meta);
    lemma_written_order(track.meta, "visible"@);
    assert forall|i: int| 0 <= i < front.len() implies is_entry(#[trigger] front[i]) && front[i].0
        != "visible"@ by {
        let k = choose|k: int| 0 <= k < track.meta.len() && track.meta[k] == front[i];
        assert(is_entry(track.meta[k]));
    }
    lemma_entries(opened, track.mml, Seq::empty(), front);
    lemma_order_restored(track.meta);
    let noted = Gathered { current: Some((track.mml, put_all(Seq::empty(), front))), ..opened };
    assert(track_lines(track) == first + entry_lines(order));
    if is_visible(track) {
        let value = entry_of(track.meta, "visible"@)->Some_0;
        let e = ("visible"@, value);
        assert(order == front.push(e));
        lemma_entry_of(track.meta, "visible"@);
        let k = choose|k: int| 0 <= k < track.meta.len() && #[trigger] track.meta[k] == e;
        assert(is_entry(track.meta[k]));
        lemma_entry_line(e);
        assert(order.drop_last() =~= front);
        assert(put_all(Seq::empty(), order) == with_entry(
            put_all(Seq::empty(), front),
            "visible"@,
            value,
        ));
        let line = entry_line(e.0, e.1);
        let full = Gathered { current: Some((track.mml, track.meta)), ..opened };
        assert(with_next(noted, line) == completed(full));
        assert(done.tracks == tracks.take(n));
        assert(completed(full) == Ok::<Gathered, MmiFault>(after_tracks(head, tracks, n + 1))) by {
            assert(tracks.take(n).push(track) =~= tracks.take(n + 1));
            assert(full.tracks.len() as usize == n as usize);
        }
        assert(entry_lines(order).drop_last() =~= entry_lines(front));
        assert(entry_lines(order).last() == line);
        assert(run(opened, entry_lines(order)) == Ok::<Gathered, MmiFault>(
            after_tracks(head, tracks, n + 1),
        ));
    } else {
        assert(order == front);
        assert(noted =~= after_tracks(head, tracks, n + 1));
    }
    lemma_run_append(g, first, entry_lines(order));
}

proof fn lemma_tracks(head: Seq<Seq<char>>, tracks: Seq<TrackView>, n: int)
    requires
        stored_tracks(tracks),
        0 <= n <= tracks.len(),
    ensures
        run(after_tracks(head, tracks, 0), tracks_lines(tracks, n)) == Ok::<Gathered, MmiFault>(
            after_tracks(head, tracks, n),
        ),
    decreases n,
{
    if n > 0 {
        lemma_tracks(head, tracks, n - 1);
        lemma_track(head, tracks, n - 1);
        lemma_run_append(
            after_tracks(head, tracks, 0),
            tracks_lines(tracks, n - 1),
            track_lines(tracks[n - 1]),
        );
    }
}

/// Lines behind the tracks are taken as they are.
proof fn lemma_tail(g: Gathered, tail: Seq<Seq<char>>, done: Gathered)
    requires
        completed(g) == Ok::<Gathered, MmiFault>(done),
        done.current is None,
        g.seen,
        g.tail == Seq::<Seq<char>>::empty(),
        forall|i: int| 0 <= i < tail.len() ==> is_outer_line(#[trigger] tail[i]),
        tail.len() > 0 ==> g.current is None || (tail[0].len() > 0 && tail[0][0] == '['),
    ensures
        run(g, tail) matches Ok(h) && completed(h) matches Ok(end) && end.head == done.head
            && end.tracks == done.tracks && end.tail == tail && (tail.len() > 0 ==> h.current
            is None && h.tracks == done.tracks && h.head == done.head) && h.seen && h.tail == tail,
    decreases tail.len(),
{
    if tail.len() == 0 {
        assert(done.tail =~= tail);
        assert(g.tail =~= tail);
    } else {
        let front = tail.drop_last();
        assert forall|i: int| 0 <= i < front.len() implies is_outer_line(#[trigger] front[i]) by {
            assert(front[i] == tail[i]);
        }
        if front.len() > 0 {
            assert(front[0] == tail[0]);
        }
        lemma_tail(g, front, done);
        let h = run(g, front)->Ok_0;
        let line = tail[tail.len() - 1];
        assert(is_outer_line(line));
        assert(front.push(line) =~= tail);
        if front.len() == 0 {
            assert(run(g, front) == Ok::<Gathered, MmiFault>(g));
        }
    }
}

proof fn lemma_strip_line(line: Seq<char>)
    requires
        is_line(line),
    ensures
        without_back(line, |c: char| c == '\r') == line,
{
}

/// Whether no line holds what separates lines.
proof fn lemma_lines_are_lines(score: ScoreView)
    requires
        has_stored_body(score),
    ensures
        forall|i: int| 0 <= i < score_lines(score).len() ==> is_line(
            #[trigger] score_lines(score)[i],
        ),
{
    lemma_tracks_are_lines(score.tracks, score.tracks.len() as int);
    let lines = score_lines(score);
    let middle = tracks_lines(score.tracks, score.tracks.len() as int);
    assert forall|i: int| 0 <= i < lines.len() implies is_line(#[trigger] lines[i]) by {
        if i < score.head.len() {
            assert(is_outer_line(score.head[i]));
        } else if i < score.head.len() + middle.len() {
            assert(lines[i] == middle[i - score.head.len()]);
        } else {
            assert(is_outer_line(score.tail[i - score.head.len() - middle.len()]));
        }
    }
}

proof fn lemma_tracks_are_lines(tracks: Seq<TrackView>, n: int)
    requires
        stored_tracks(tracks),
        0 <= n <= tracks.len(),
    ensures
        forall|i: int| 0 <= i < tracks_lines(tracks, n).len() ==> is_line(
            #[trigger] tracks_lines(tracks, n)[i],
        ),
    decreases n,
{
    if n > 0 {
        lemma_tracks_are_lines(tracks, n - 1);
        let track = tracks[n - 1];
        assert(is_stored_track(track, (n - 1) as usize));
        let before = tracks_lines(tracks, n - 1);
        let mine = track_lines(track);
        let opening = "mml-track="@ + track.mml;
        assert(is_line(opening)) by {
            reveal_strlit("mml-track=");
            reveal_strlit("MML@");
            assert(track.mml == normalized(track.mml));
            assert(track.mml.len() > 0 && track.mml.last() == ';');
            assert(opening.last() == ';');
            if opening.contains('\n') {
                let i = choose|i: int| 0 <= i < opening.len() && opening[i] == '\n';
                if i >= 10 {
                    assert(track.mml[i - 10] == '\n');
                    assert(track.mml.contains('\n'));
                }
            }
        }
        assert forall|i: int| 0 <= i < mine.len() implies is_line(#[trigger] mine[i]) by {
            if i == 0 {
                assert(mine[0] == opening);
            } else {
                let order = written_order(track.meta);
                let e = order[i - 1];
                assert(mine[i] == entry_line(e.0, e.1));
                lemma_written_order(track.meta, "visible"@);
                lemma_and_under(
                    front_order(track.meta),
                    track.meta,
                    "visible"@,
                    "visible"@,
                );
                assert(track.meta.contains(e)) by {
                    assert(order == and_under(front_order(track.meta), track.meta, "visible"@));
                    if i - 1 < front_order(track.meta).len() && order[i - 1] == front_order(
                        track.meta,
                    )[i - 1] {
                        assert(track.meta.contains(front_order(track.meta)[i - 1]));
                    }
                }
                let k = choose|k: int| 0 <= k < track.meta.len() && track.meta[k] == e;
                assert(is_entry(track.meta[k]));
                lemma_entry_line(e);
            }
        }
        let all = tracks_lines(tracks, n);
        assert forall|i: int| 0 <= i < all.len() implies is_line(#[trigger] all[i]) by {
            if i < before.len() {
                assert(all[i] == before[i]);
            } else {
                assert(all[i] == mine[i - before.len()]);
            }
        }
    }
}

/// Reading the text of a score gives the score back.
pub proof fn law_score_reads_back(score: ScoreView)
    requires
        has_stored_body(score),
        has_stored_tail(score),
    ensures
        score_of(score_text(score)) == Ok::<ScoreView, MmiFault>(score),
{
    let lines = score_lines(score);
    let n = score.tracks.len() as int;
    let middle = tracks_lines(score.tracks, n);
    lemma_lines_are_lines(score);
    if n > 0 && score.head.len() == 0 {
        lemma_first_track_line(score.tracks, n);
    }
    assert(lines.len() > 0);
    let text = joined(lines, '\n');
    assert forall|i: int| 0 <= i < lines.len() implies !(#[trigger] lines[i]).contains('\n') by {
        assert(is_line(lines[i]));
    }
    law_joined_pieces(lines, '\n');
    lemma_joined_front(lines, '\n');
    let mark = |c: char| c == '\u{feff}';
    assert(text.len() > 0 ==> text[0] != '\u{feff}') by {
        if score.head.len() > 0 {
            assert(lines[0] == score.head[0]);
        } else {
            assert(lines[0] == middle[0]);
        }
    }
    assert(without_front(text, mark) == text);
    let strip = |line: Seq<char>| without_back(line, |c: char| c == '\r');
    assert(lines.map_values(strip) =~= lines) by {
        assert forall|i: int| 0 <= i < lines.len() implies strip(lines[i]) == lines[i] by {
            assert(is_line(lines[i]));
            lemma_strip_line(lines[i]);
        }
    }
    assert(lines_of(text) == lines);
    lemma_gathered_run(lines, lines.len() as int);
    assert(lines.take(lines.len() as int) =~= lines);
    lemma_head(score.head);
    let start = after_tracks(score.head, score.tracks, 0);
    assert(start =~= Gathered { head: score.head, ..nothing_gathered() });
    lemma_tracks(score.head, score.tracks, n);
    lemma_run_append(nothing_gathered(), score.head, middle);
    lemma_run_append(nothing_gathered(), score.head + middle, score.tail);
    let g = after_tracks(score.head, score.tracks, n);
    lemma_completed(score.head, score.tracks, n);
    let done = completed(g)->Ok_0;
    assert(score.tracks.take(n) =~= score.tracks);
    if n > 0 {
        lemma_tail(g, score.tail, done);
    } else {
        assert(score.tail =~= Seq::<Seq<char>>::empty());
        assert(done.tail =~= score.tail);
    }
}

proof fn lemma_first_track_line(tracks: Seq<TrackView>, n: int)
    requires
        0 < n <= tracks.len(),
    ensures
        tracks_lines(tracks, n).len() > 0,
        tracks_lines(tracks, n)[0] == "mml-track="@ + tracks[0].mml,
        tracks_lines(tracks, n)[0].len() > 0,
        tracks_lines(tracks, n)[0][0] == 'm',
    decreases n,
{
    reveal_strlit("mml-track=");
    if n > 1 {
        lemma_first_track_line(tracks, n - 1);
        assert(tracks_lines(tracks, n)[0] == tracks_lines(tracks, n - 1)[0]);
    } else {
        assert(tracks_lines(tracks, 0) =~= Seq::<Seq<char>>::empty());
        assert(tracks_lines(tracks, 1)[0] == track_lines(tracks[0])[0]);
    }
}

proof fn lemma_front_kept(s: Seq<char>, drop: spec_fn(char) -> bool)
    ensures
        forall|c: char| without_front(s, drop).contains(c) ==> #[trigger] s.contains(c),
        without_front(s, drop).len() > 0 ==> !drop(without_front(s, drop)[0]),
    decreases s.len(),
{
    if s.len() > 0 && drop(s[0]) {
        lemma_front_kept(s.skip(1), drop);
        assert forall|c: char| without_front(s, drop).contains(c) implies #[trigger] s.contains(
            c,
        ) by {
            assert(s.skip(1).contains(c));
            let i = choose|i: int| 0 <= i < s.skip(1).len() && s.skip(1)[i] == c;
            assert(s[i + 1] == c);
        }
    }
}

proof fn lemma_back_kept(s: Seq<char>, drop: spec_fn(char) -> bool)
    ensures
        forall|c: char| without_back(s, drop).contains(c) ==> #[trigger] s.contains(c),
        without_back(s, drop).len() > 0 ==> !drop(without_back(s, drop).last()),
        without_back(s, drop).len() <= s.len(),
        forall|i: int|
            0 <= i < without_back(s, drop).len() ==> #[trigger] without_back(s, drop)[i] == s[i],
    decreases s.len(),
{
    if s.len() > 0 && drop(s.last()) {
        lemma_back_kept(s.drop_last(), drop);
        assert forall|c: char| without_back(s, drop).contains(c) implies #[trigger] s.contains(
            c,
        ) by {
            assert(s.drop_last().contains(c));
            let i = choose|i: int| 0 <= i < s.drop_last().len() && s.drop_last()[i] == c;
            assert(s[i] == c);
        }
    }
}

/// Normalizing MML twice is normalizing it once, and brings no new line.
pub(crate) proof fn lemma_normalized(mml: Seq<char>)
    ensures
        has_mark(normalized(mml)) && normalized(mml).last() == ';',
        normalized(normalized(mml)) == normalized(mml),
        !mml.contains('\n') ==> !normalized(mml).contains('\n'),
{
    reveal_strlit("MML@");
    let space = |c: char| is_space(c);
    let front = without_front(mml, space);
    lemma_front_kept(mml, space);
    lemma_back_kept(front, space);
    let text = trimmed(mml);
    let marked = if has_mark(text) {
        text
    } else {
        "MML@"@ + text
    };
    let n = normalized(mml);
    assert(marked.len() >= 4);
    assert(n.len() >= 4 && n.last() == ';');
    assert(has_mark(n)) by {
        assert(n[0] == marked[0] && n[1] == marked[1] && n[2] == marked[2] && n[3] == marked[3]);
    }
    assert(!is_space(n[0]));
    assert(without_front(n, space) == n);
    assert(without_back(n, space) == n);
    if !mml.contains('\n') {
        assert(!front.contains('\n'));
        assert(!text.contains('\n'));
        if n.contains('\n') {
            let i = choose|i: int| 0 <= i < n.len() && n[i] == '\n';
            assert(i < marked.len());
            if has_mark(text) {
                assert(text[i] == '\n');
                assert(text.contains('\n'));
            } else if i >= 4 {
                assert(text[i - 4] == '\n');
                assert(text.contains('\n'));
            }
        }
    }
}

/// What holds of what the first lines of a text make up.
spec fn is_stored_so_far(g: Gathered, lines: Seq<Seq<char>>, n: int) -> bool {
    &&& forall|i: int| 0 <= i < g.head.len() ==> is_outer_line(#[trigger] g.head[i])
    &&& forall|i: int| 0 <= i < g.tail.len() ==> is_outer_line(#[trigger] g.tail[i])
    &&& forall|i: int|
        0 <= i < g.tracks.len() ==> is_stored_track(#[trigger] g.tracks[i], i as usize)
    &&& !g.seen ==> g.head.len() == n && g.current is None
    &&& g.head.len() > 0 ==> g.head[0] == lines[0]
    &&& g.seen ==> g.tracks.len() > 0 || g.current is Some
    &&& g.current matches Some((mml, meta)) ==> {
        &&& !mml.contains('\n')
        &&& ascending(meta)
        &&& forall|i: int| 0 <= i < meta.len() ==> is_entry(#[trigger] meta[i])
    }
}

proof fn lemma_completed_stored(g: Gathered, lines: Seq<Seq<char>>, n: int)
    requires
        is_stored_so_far(g, lines, n),
        completed(g) is Ok,
    ensures
        is_stored_so_far(completed(g)->Ok_0, lines, n),
        completed(g)->Ok_0.current is None,
{
    match g.current {
        Some((mml, meta)) => {
            lemma_normalized(mml);
            let index = g.tracks.len() as usize;
            let track = track_of(mml, meta, index)->Ok_0;
            assert(is_stored_track(track, index));
        },
        None => {},
    }
}

proof fn lemma_entry_of_line(line: Seq<char>, key: Seq<char>, value: Seq<char>)
    requires
        is_line(line),
        cut(line, '=') == Some((key, value)),
        !begins_with(line, "mml-track="@),
        !(line.len() > 0 && line[0] == '['),
    ensures
        is_entry((key, value)),
{
    lemma_index_of(line, '=', 0);
    let i = index_of(line, '=', 0);
    assert(key == line.take(i));
    assert(value == line.skip(i + 1));
    if key.contains('=') {
        let k = choose|k: int| 0 <= k < key.len() && key[k] == '=';
        assert(line[k] == '=');
    }
    if key.contains('\n') {
        let k = choose|k: int| 0 <= k < key.len() && key[k] == '\n';
        assert(line[k] == '\n');
        assert(line.contains('\n'));
    }
    if value.contains('\n') {
        let k = choose|k: int| 0 <= k < value.len() && value[k] == '\n';
        assert(line[k + i + 1] == '\n');
        assert(line.contains('\n'));
    }
    if value.len() > 0 {
        assert(value.last() == line.last());
    }
    if key == "mml-track"@ {
        reveal_strlit("mml-track=");
        reveal_strlit("mml-track");
        let p = "mml-track="@;
        assert(line.take(10) =~= p) by {
            assert forall|k: int| 0 <= k < 10 implies line.take(10)[k] == p[k] by {
                if k < 9 {
                    assert(key[k] == line[k]);
                    assert("mml-track"@[k] == p[k]);
                }
            }
        }
    }
    if key.len() > 0 {
        assert(key[0] == line[0]);
    }
}

proof fn lemma_with_entry_stored(meta: Seq<Entry>, key: Seq<char>, value: Seq<char>)
    requires
        forall|i: int| 0 <= i < meta.len() ==> is_entry(#[trigger] meta[i]),
        is_entry((key, value)),
    ensures
        forall|i: int| 0 <= i < with_entry(meta, key, value).len() ==> is_entry(
            #[trigger] with_entry(meta, key, value)[i],
        ),
    decreases meta.len(),
{
    if !(meta.len() == 0 || text_less(meta.last().0, key)) && meta.last().0 != key {
        let front = meta.drop_last();
        assert forall|i: int| 0 <= i < front.len() implies is_entry(#[trigger] front[i]) by {
            assert(front[i] == meta[i]);
        }
        lemma_with_entry_stored(front, key, value);
        let new = with_entry(meta, key, value);
        let inner = with_entry(front, key, value);
        assert forall|i: int| 0 <= i < new.len() implies is_entry(#[trigger] new[i]) by {
            if i < inner.len() {
                assert(new[i] == inner[i]);
            } else {
                assert(new[i] == meta[meta.len() - 1]);
            }
        }
    }
}

proof fn lemma_next_stored(g: Gathered, lines: Seq<Seq<char>>, n: int)
    requires
        is_stored_so_far(g, lines, n),
        0 <= n < lines.len(),
        is_line(lines[n]),
        with_next(g, lines[n]) is Ok,
    ensures
        is_stored_so_far(with_next(g, lines[n])->Ok_0, lines, n + 1),
{
    let line = lines[n];
    let prefix = "mml-track="@;
    if begins_with(line, prefix) {
        lemma_completed_stored(g, lines, n);
        let mml = line.skip(prefix.len() as int);
        if mml.contains('\n') {
            let k = choose|k: int| 0 <= k < mml.len() && mml[k] == '\n';
            assert(line[k + prefix.len()] == '\n');
            assert(line.contains('\n'));
        }
    } else if g.seen && line.len() > 0 && line[0] == '[' {
        lemma_completed_stored(g, lines, n);
    } else {
        match g.current {
            Some((mml, meta)) => match cut(line, '=') {
                Some((key, value)) => {
                    lemma_entry_of_line(line, key, value);
                    lemma_with_entry_stored(meta, key, value);
                    law_entries(meta, key, value, key);
                    let noted = Gathered {
                        current: Some((mml, with_entry(meta, key, value))),
                        ..g
                    };
                    assert(is_stored_so_far(noted, lines, n + 1));
                    if key == "visible"@ {
                        lemma_completed_stored(noted, lines, n + 1);
                    }
                },
                None => {},
            },
            None => {},
        }
    }
}

proof fn lemma_gathered_stored(lines: Seq<Seq<char>>, n: int)
    requires
        0 <= n <= lines.len(),
        gathered(lines, n) is Ok,
        forall|i: int| 0 <= i < lines.len() ==> is_line(#[trigger] lines[i]),
    ensures
        is_stored_so_far(gathered(lines, n)->Ok_0, lines, n),
    decreases n,
{
    if n > 0 {
        lemma_gathered_stored(lines, n - 1);
        assert(is_line(lines[n - 1]));
        lemma_next_stored(gathered(lines, n - 1)->Ok_0, lines, n - 1);
    }
}

proof fn lemma_pieces(s: Seq<char>, c: char)
    ensures
        pieces(s, c).len() > 0,
        forall|i: int| 0 <= i < pieces(s, c).len() ==> !(#[trigger] pieces(s, c)[i]).contains(c),
        pieces(s, c)[0].len() > 0 ==> s.len() > 0 && pieces(s, c)[0][0] == s[0],
    decreases s.len(),
{
    lemma_index_of(s, c, 0);
    let i = index_of(s, c, 0);
    if i < s.len() {
        lemma_pieces(s.skip(i + 1), c);
        let rest = pieces(s.skip(i + 1), c);
        assert forall|k: int| 0 <= k < pieces(s, c).len() implies !(
        #[trigger] pieces(s, c)[k]).contains(c) by {
            if k == 0 {
                assert(pieces(s, c)[0] == s.take(i));
            } else {
                assert(pieces(s, c)[k] == rest[k - 1]);
            }
        }
    } else {
        assert(!s.contains(c));
    }
}

/// A score that has been read can be stored, and is read back from its text unless lines that
/// stood between its tracks would be taken for entries of the last one.
pub proof fn law_read_score_is_stored(raw: Seq<char>)
    requires
        score_of(raw) is Ok,
        score_of(raw)->Ok_0.tracks.len() <= usize::MAX,
    ensures
        has_stored_body(score_of(raw)->Ok_0),
        has_stored_tail(score_of(raw)->Ok_0) ==> score_of(score_text(score_of(raw)->Ok_0))
            == score_of(raw),
{
    let lines = lines_of(raw);
    let mark = |c: char| c == '\u{feff}';
    let feed = |c: char| c == '\r';
    let text = without_front(raw, mark);
    lemma_front_kept(raw, mark);
    lemma_pieces(text, '\n');
    let found = pieces(text, '\n');
    assert forall|i: int| 0 <= i < lines.len() implies is_line(#[trigger] lines[i]) by {
        lemma_back_kept(found[i], feed);
        assert(lines[i] == without_back(found[i], feed));
        if lines[i].contains('\n') {
            assert(found[i].contains('\n'));
        }
    }
    lemma_back_kept(found[0], feed);
    assert(lines[0] == without_back(found[0], feed));
    lemma_gathered_stored(lines, lines.len() as int);
    let g = gathered(lines, lines.len() as int)->Ok_0;
    lemma_completed_stored(g, lines, lines.len() as int);
    let score = score_of(raw)->Ok_0;
    assert(has_stored_body(score));
    if has_stored_tail(score) {
        law_score_reads_back(score);
    }
}

} // verus!
