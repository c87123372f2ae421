//! What scrolls keep of the score that they are cut from.
use crate::ascii::{COMMA, SEMICOLON};
use crate::chunk::{chunk_fault, chunk_texts, clipped, lemma_no_fault, local_tempos, sliced, within};
use crate::meta::Entry;
use crate::mmi::{has_mark, normalized, read_parts, track_of, TrackError};
use crate::mml::{initial, read_part, MmlError, Reading};
use crate::roundtrip::{framed, law_part_reads_back, lemma_part_bytes, relocated};
use crate::score::{by_onset, by_tick, with_all, Note, ScoreView, Tempo, TrackView};
use crate::scroll::{renumbered, scroll_of, scroll_tracks, track_mml};
use crate::storage::law_joined_pieces;
use crate::text::{all_ascii, ascii_chars, is_space, joined, lemma_ascii_encoding, pieces, without_back, without_front};
use crate::writer::part_text;
use vstd::prelude::*;
use vstd::utf8::encode_utf8;

verus! {

proof fn lemma_joined_first(parts: Seq<Seq<char>>, front: Seq<char>, c: char)
    requires
        parts.len() > 0,
    ensures
        front + joined(parts, c) == joined(parts.update(0, front + parts[0]), c),
    decreases parts.len(),
{
    let new = parts.update(0, front + parts[0]);
    if parts.len() > 1 {
        lemma_joined_first(parts.drop_last(), front, c);
        assert(new.drop_last() =~= parts.drop_last().update(0, front + parts[0]));
        assert(front + joined(parts, c) =~= (front + joined(parts.drop_last(), c)) + seq![c]
            + parts.last());
    }
}

proof fn lemma_joined_last(parts: Seq<Seq<char>>, back: Seq<char>, c: char)
    requires
        parts.len() > 0,
    ensures
        joined(parts, c) + back == joined(
            parts.update(parts.len() - 1, parts.last() + back),
            c,
        ),
{
    let new = parts.update(parts.len() - 1, parts.last() + back);
    if parts.len() > 1 {
        assert(new.drop_last() =~= parts.drop_last());
        assert(joined(parts, c) + back =~= joined(parts.drop_last(), c) + seq![c] + (parts.last()
            + back));
    }
}

/// What stands between the commas of a track's MML.
spec fn framed_texts(texts: Seq<Seq<char>>) -> Seq<Seq<char>> {
    let opened = texts.update(0, "MML@"@ + texts[0]);
    opened.update(texts.len() - 1, opened.last() + ";"@)
}

proof fn lemma_track_mml(texts: Seq<Seq<char>>)
    requires
        texts.len() > 0,
        forall|i: int| 0 <= i < texts.len() ==> !(#[trigger] texts[i]).contains(','),
    ensures
        normalized(track_mml(texts)) == track_mml(texts),
        pieces(track_mml(texts), ',') == framed_texts(texts),
{
    reveal_strlit("MML@");
    reveal_strlit(";");
    let mml = track_mml(texts);
    lemma_marked(joined(texts, ','));
    let opened = texts.update(0, "MML@"@ + texts[0]);
    lemma_joined_first(texts, "MML@"@, ',');
    lemma_joined_last(opened, ";"@, ',');
    let all = framed_texts(texts);
    assert(mml == joined(all, ','));
    assert forall|i: int| 0 <= i < all.len() implies !(#[trigger] all[i]).contains(',') by {
        assert(!texts[i].contains(','));
        if all[i].contains(',') {
            let k = choose|k: int| 0 <= k < all[i].len() && all[i][k] == ',';
            let shift: int = if i == 0 {
                4
            } else {
                0
            };
            assert(all[i] =~= (if i == 0 {
                "MML@"@
            } else {
                Seq::<char>::empty()
            }) + texts[i] + (if i == texts.len() - 1 {
                ";"@
            } else {
                Seq::<char>::empty()
            }));
            assert(texts[i][k - shift] == ',');
        }
    }
    law_joined_pieces(all, ',');
}

/// Text between the opening and the closing mark is normal.
proof fn lemma_marked(body: Seq<char>)
    ensures
        normalized("MML@"@ + body + ";"@) == "MML@"@ + body + ";"@,
{
    reveal_strlit("MML@");
    reveal_strlit(";");
    let mml = "MML@"@ + body + ";"@;
    assert(mml[0] == 'M' && mml[1] == 'M' && mml[2] == 'L' && mml[3] == '@');
    assert(mml.last() == ';');
    assert(has_mark(mml));
    let space = |c: char| is_space(c);
    assert(without_front(mml, space) == mml);
    assert(without_back(mml, space) == mml);
}

/// A written part as text.
pub struct WrittenPart {
    pub notes: Seq<Note>,
    pub tempos: Seq<Tempo>,
    pub total: int,
}

/// The texts of written parts.
pub open spec fn written_texts(parts: Seq<WrittenPart>) -> Seq<Seq<char>> {
    parts.map_values(
        |p: WrittenPart| ascii_chars(part_text(p.notes, p.tempos, p.total)->Ok_0),
    )
}

/// The tempos of the first of some parts together.
pub open spec fn tempos_together(parts: Seq<WrittenPart>, n: int) -> Seq<Tempo>
    decreases n,
{
    if n <= 0 {
        Seq::empty()
    } else {
        with_all(tempos_together(parts, n - 1), by_tick(parts[n - 1].tempos))
    }
}

proof fn lemma_framed_bytes(text: Seq<u8>, opened: bool, closed: bool)
    requires
        all_ascii(text),
    ensures
        encode_utf8(
            (if opened {
                "MML@"@
            } else {
                Seq::empty()
            }) + ascii_chars(text) + (if closed {
                ";"@
            } else {
                Seq::empty()
            }),
        ) == framed(text, opened, closed),
{
    reveal_strlit("MML@");
    reveal_strlit(";");
    let bytes = framed(text, opened, closed);
    assert(all_ascii(bytes));
    lemma_ascii_encoding(bytes);
    assert(ascii_chars(bytes) =~= (if opened {
        "MML@"@
    } else {
        Seq::empty()
    }) + ascii_chars(text) + (if closed {
        ";"@
    } else {
        Seq::empty()
    }));
}

proof fn lemma_read_parts(parts: Seq<WrittenPart>, track: usize, n: int)
    requires
        0 <= n <= parts.len(),
        parts.len() > 0,
        forall|i: int|
            0 <= i < parts.len() ==> part_text(
                (#[trigger] parts[i]).notes,
                parts[i].tempos,
                parts[i].total,
            ) is Ok,
    ensures
        read_parts(framed_texts(written_texts(parts)), track, n) == Ok::<_, TrackError>(
            (
                Seq::new(
                    n as nat,
                    |i: int| relocated(by_onset(parts[i].notes), (track, i as usize)),
                ),
                tempos_together(parts, n),
            ),
        ),
    decreases n,
{
    let texts = written_texts(parts);
    let all = framed_texts(texts);
    if n > 0 {
        lemma_read_parts(parts, track, n - 1);
        let i = n - 1;
        let p = parts[i];
        let bytes = part_text(p.notes, p.tempos, p.total)->Ok_0;
        lemma_part_bytes(p.notes, p.tempos, p.total);
        let opened = i == 0;
        let closed = i == parts.len() - 1;
        lemma_framed_bytes(bytes, opened, closed);
        assert(all[i] =~= (if opened {
            "MML@"@
        } else {
            Seq::<char>::empty()
        }) + ascii_chars(bytes) + (if closed {
            ";"@
        } else {
            Seq::<char>::empty()
        }));
        law_part_reads_back(p.notes, p.tempos, p.total, opened, closed, (track, i as usize));
        let f = |i: int| relocated(by_onset(parts[i].notes), (track, i as usize));
        assert(Seq::new((n - 1) as nat, f).push(f(i)) =~= Seq::new(n as nat, f));
    } else {
        assert(Seq::new(
            0,
            |i: int| relocated(by_onset(parts[i].notes), (track, i as usize)),
        ) =~= Seq::<Seq<Note>>::empty());
    }
}

/// A track made of parts that have been written holds the notes of each of them in the order
/// in which they begin, and their tempos together.
pub proof fn law_track_reads_back(parts: Seq<WrittenPart>, meta: Seq<Entry>, index: usize)
    requires
        parts.len() > 0,
        forall|i: int|
            0 <= i < parts.len() ==> part_text(
                (#[trigger] parts[i]).notes,
                parts[i].tempos,
                parts[i].total,
            ) is Ok,
    ensures
        track_of(track_mml(written_texts(parts)), meta, index) == Ok::<TrackView, TrackError>(
            TrackView {
                mml: track_mml(written_texts(parts)),
                meta,
                parts: Seq::new(
                    parts.len(),
                    |i: int| relocated(by_onset(parts[i].notes), (index, i as usize)),
                ),
                tempos: tempos_together(parts, parts.len() as int),
            },
        ),
{
    let texts = written_texts(parts);
    assert forall|i: int| 0 <= i < texts.len() implies !(#[trigger] texts[i]).contains(',') by {
        let p = parts[i];
        lemma_part_bytes(p.notes, p.tempos, p.total);
        let bytes = part_text(p.notes, p.tempos, p.total)->Ok_0;
        assert(texts[i] == ascii_chars(bytes));
        if texts[i].contains(',') {
            let k = choose|k: int| 0 <= k < texts[i].len() && texts[i][k] == ',';
            assert(bytes[k] as char == ',');
            assert(bytes[k] != COMMA);
        }
    }
    lemma_track_mml(texts);
    lemma_read_parts(parts, index, parts.len() as int);
}

/// A track without parts reads as one with a single part in which nothing sounds.
pub(crate) proof fn lemma_empty_track(meta: Seq<Entry>, index: usize)
    ensures
        track_of(track_mml(Seq::empty()), meta, index) matches Ok(track) && track.parts == seq![
            Seq::<Note>::empty(),
        ] && track.tempos == Seq::<Tempo>::empty(),
{
    reveal_strlit("MML@");
    reveal_strlit(";");
    let mml = track_mml(Seq::empty());
    lemma_marked(Seq::empty());
    assert(joined(Seq::<Seq<char>>::empty(), ',') =~= Seq::<char>::empty());
    assert(mml =~= seq!['M', 'M', 'L', '@', ';']);
    assert(!mml.contains(','));
    let one = seq![mml];
    assert(joined(one, ',') == mml);
    assert forall|i: int| 0 <= i < one.len() implies !(#[trigger] one[i]).contains(',') by {}
    law_joined_pieces(one, ',');
    let bytes = framed(Seq::empty(), true, true);
    lemma_framed_bytes(Seq::empty(), true, true);
    assert(mml =~= "MML@"@ + ascii_chars(Seq::<u8>::empty()) + ";"@);
    assert(bytes =~= seq![77u8, 77u8, 76u8, 64u8, SEMICOLON]);
    assert(crate::mml::header_at(bytes, 0));
    assert(read_part(bytes, (index, 0)) == Ok::<Reading, MmlError>(initial())) by {
        reveal_with_fuel(crate::mml::read_from, 3);
    }
    reveal_with_fuel(read_parts, 2);
    assert(read_parts(one, index, 1) is Ok);
    assert(Seq::<Seq<Note>>::empty().push(initial().notes) =~= seq![Seq::<Note>::empty()]);
}

/// The parts of a track between two ticks as they are written.
pub open spec fn written_parts(
    score: ScoreView,
    tempos: Seq<Tempo>,
    ti: int,
    a: int,
    b: int,
    drop_short: bool,
) -> Seq<WrittenPart> {
    Seq::new(
        score.tracks[ti].parts.len(),
        |pi: int|
            WrittenPart {
                notes: sliced(score.tracks[ti].parts[pi], a, b, drop_short),
                tempos: if pi == 0 {
                    local_tempos(tempos, a, b)
                } else {
                    Seq::empty()
                },
                total: b - a,
            },
    )
}

proof fn lemma_scroll_tracks(
    score: ScoreView,
    tempos: Seq<Tempo>,
    a: int,
    b: int,
    reference: bool,
    n: int,
)
    requires
        chunk_fault(score, tempos, 0, a, b, reference) is None,
        0 <= n <= score.tracks.len(),
    ensures
        scroll_tracks(score, chunk_texts(score, tempos, a, b, reference), reference, n) matches Ok(
            tracks,
        ) && tracks.len() == n && forall|ti: int|
            0 <= ti < n && score.tracks[ti].parts.len() > 0 ==> (#[trigger] tracks[ti]).parts
                == Seq::new(
                score.tracks[ti].parts.len(),
                |pi: int|
                    relocated(
                        by_onset(sliced(score.tracks[ti].parts[pi], a, b, reference)),
                        (ti as usize, pi as usize),
                    ),
            ),
    decreases n,
{
    let texts = chunk_texts(score, tempos, a, b, reference);
    if n > 0 {
        lemma_scroll_tracks(score, tempos, a, b, reference, n - 1);
        let ti = n - 1;
        let meta = score.tracks[ti].meta;
        let noted = if reference {
            renumbered(meta, ti)
        } else {
            meta
        };
        if score.tracks[ti].parts.len() == 0 {
            assert(texts[ti] =~= Seq::<Seq<char>>::empty());
            lemma_empty_track(noted, ti as usize);
        } else {
            let parts = written_parts(score, tempos, ti, a, b, reference);
            assert forall|i: int| 0 <= i < parts.len() implies part_text(
                (#[trigger] parts[i]).notes,
                parts[i].tempos,
                parts[i].total,
            ) is Ok by {
                lemma_no_fault(score, tempos, 0, ti, i, a, b, reference);
            }
            assert(written_texts(parts) =~= texts[ti]);
            law_track_reads_back(parts, noted, ti as usize);
            let track = track_of(track_mml(texts[ti]), noted, ti as usize)->Ok_0;
            assert(track.parts =~= Seq::new(
                score.tracks[ti].parts.len(),
                |pi: int|
                    relocated(
                        by_onset(sliced(score.tracks[ti].parts[pi], a, b, reference)),
                        (ti as usize, pi as usize),
                    ),
            ));
        }
    }
}

/// Whatever of a score can be written between two ticks within the limit makes a scroll, and
/// the parts of the scroll hold what sounds there of the parts of the score, in the order in
/// which it begins. Without the reference rules nothing of it is dropped.
pub proof fn law_scroll_keeps_notes(
    score: ScoreView,
    tempos: Seq<Tempo>,
    a: int,
    b: int,
    limit: int,
    reference: bool,
)
    requires
        chunk_fault(score, tempos, 0, a, b, reference) is None,
        within(chunk_texts(score, tempos, a, b, reference), limit),
    ensures
        scroll_of(score, tempos, a, b, limit, reference) matches Ok(scroll) && scroll.score.tracks.len()
            == score.tracks.len() && forall|ti: int|
            0 <= ti < score.tracks.len() && score.tracks[ti].parts.len() > 0 ==> (
            #[trigger] scroll.score.tracks[ti]).parts == Seq::new(
                score.tracks[ti].parts.len(),
                |pi: int|
                    relocated(
                        by_onset(sliced(score.tracks[ti].parts[pi], a, b, reference)),
                        (ti as usize, pi as usize),
                    ),
            ),
{
    lemma_scroll_tracks(score, tempos, a, b, reference, score.tracks.len() as int);
}

/// Between two ticks exactly that of a note sounds which sounds there in the score: nothing is
/// lost at a cut, and nothing sounds twice.
pub proof fn law_clipped_sounds(note: Note, a: int, b: int, t: int)
    requires
        0 <= a <= b <= i64::MAX,
    ensures
        (clipped(note, a, b) matches Some(c) && c.on <= t - a < c.off) <==> a <= t < b && note.on
            <= t < note.off,
{
}

} // verus!
