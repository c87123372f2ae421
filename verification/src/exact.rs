//! What a report tells apart.
use crate::bag::{excess, in_common};
use crate::polyphony::{first_event, last_event, lemma_ticks_counted, lemma_ticks_witness, ticks_with, voices};
use crate::score::{Note, ScoreView, Tempo, TrackView};
use crate::shapes::forms_of;
use crate::tally::Count;
use crate::text::number_text;
use crate::verify::{excess_report, kept_report, novel, novel_report, score_report, sound_report, tempo_report, top_level};
use vstd::prelude::*;

verus! {

/// Whether two lists of tempos agree event by event, in tick and in beats per minute.
pub open spec fn same_events(a: Seq<Tempo>, b: Seq<Tempo>) -> bool {
    &&& a.len() == b.len()
    &&& forall|k: int| 0 <= k < a.len() ==> (#[trigger] a[k]).0 == b[k].0 && a[k].1 == b[k].1
}

/// The line that tells, in one word, whether the tempos of a track are exact.
pub open spec fn tempo_word_line(track: int, word: Seq<char>, events: int) -> Seq<char> {
    "track"@ + number_text(track) + " tempo events exact: "@ + word + " ("@ + number_text(events)
        + ")\n"@
}

/// Whether a text is put together of three.
pub open spec fn is_made_of(text: Seq<char>, front: Seq<char>, line: Seq<char>, back: Seq<char>) -> bool {
    text == front + line + back
}

proof fn lemma_same_events(a: Seq<Tempo>, b: Seq<Tempo>)
    ensures
        same_events(a, b) <==> a == b,
{
    if same_events(a, b) {
        assert(a =~= b);
    }
}

proof fn lemma_line(text: Seq<char>, tracks: Seq<TrackView>, truth: Seq<Tempo>, i: int)
    requires
        0 <= i < tracks.len(),
    ensures
        tempo_report(text, tracks, truth, i + 1) == tempo_report(text, tracks, truth, i)
            + tempo_word_line(
            i + 1,
            if same_events(tracks[i].tempos, truth) {
                "true"@
            } else {
                "false"@
            },
            tracks[i].tempos.len() as int,
        ),
{
    lemma_same_events(tracks[i].tempos, truth);
    let word = if same_events(tracks[i].tempos, truth) {
        "true"@
    } else {
        "false"@
    };
    assert(tempo_report(text, tracks, truth, i + 1) =~= tempo_report(text, tracks, truth, i)
        + tempo_word_line(i + 1, word, tracks[i].tempos.len() as int));
}

/// The lines from one track on, behind those of the tracks before it.
proof fn lemma_lines(text: Seq<char>, tracks: Seq<TrackView>, truth: Seq<Tempo>, i: int, n: int) -> (back:
    Seq<char>)
    requires
        0 <= i <= n <= tracks.len(),
    ensures
        tempo_report(text, tracks, truth, n) == tempo_report(text, tracks, truth, i) + back,
    decreases n - i,
{
    if i == n {
        let none = Seq::<char>::empty();
        assert(tempo_report(text, tracks, truth, i) + none =~= tempo_report(text, tracks, truth, n));
        none
    } else {
        let back = lemma_lines(text, tracks, truth, i, n - 1);
        let last = tempo_word_line(
            n,
            if same_events(tracks[n - 1].tempos, truth) {
                "true"@
            } else {
                "false"@
            },
            tracks[n - 1].tempos.len() as int,
        );
        lemma_line(text, tracks, truth, n - 1);
        assert(tempo_report(text, tracks, truth, i) + back + last =~= tempo_report(
            text,
            tracks,
            truth,
            i,
        ) + (back + last));
        back + last
    }
}

proof fn lemma_extra_behind(text: Seq<char>, extra: Seq<(Note, int)>, n: int) -> (back: Seq<
    char,
>)
    ensures
        crate::verify::extra_report(text, extra, n) == text + back,
    decreases n,
{
    if n <= 0 {
        assert(text + Seq::<char>::empty() =~= text);
        Seq::empty()
    } else {
        let back = lemma_extra_behind(text, extra, n - 1);
        let note = extra[n - 1].0;
        let own = "    ("@ + number_text(note.on as int) + ", "@ + number_text(note.off as int)
            + ", "@ + number_text(note.pitch as int) + ", "@ + number_text(note.vel as int) + ") x"@
            + number_text(extra[n - 1].1) + "\n"@;
        assert(crate::verify::extra_report(text, extra, n) =~= text + (back + own));
        back + own
    }
}

/// What of a report stands behind the lines on the tempos hangs on the notes and the texts only.
proof fn lemma_behind(source: ScoreView, output: ScoreView, percent: Seq<char>) -> (back: (
    Seq<char>,
    Seq<char>,
))
    ensures
        back.0 == kept_report(Seq::empty(), source.notes(), output.notes(), percent),
        score_report(source, output, percent) == tempo_report(
            sound_report(output.tracks.len() as int, output.notes()),
            output.tracks,
            source.all_tempos(),
            output.tracks.len() as int,
        ) + (back.0 + back.1),
{
    let before = source.notes();
    let after = output.notes();
    let sound = sound_report(output.tracks.len() as int, after);
    let tempos = tempo_report(
        sound,
        output.tracks,
        source.all_tempos(),
        output.tracks.len() as int,
    );
    let kept = kept_report(tempos, before, after, percent);
    let none = Seq::<char>::empty();
    let one = kept_report(none, before, after, percent);
    assert(kept =~= tempos + one);
    let extra = excess(after, before);
    let more = excess_report(kept, extra);
    let two = if extra.len() == 0 {
        none
    } else {
        let first = "output notes not present verbatim in input: "@ + number_text(
            crate::bag::total(extra),
        ) + "\n"@;
        let n = if extra.len() < 8 {
            extra.len() as int
        } else {
            8
        };
        assert(kept + "output notes not present verbatim in input: "@ + number_text(
            crate::bag::total(extra),
        ) + "\n"@ =~= kept + first);
        let rest = lemma_extra_behind(kept + first, extra, n);
        assert(kept + first + rest =~= kept + (first + rest));
        first + rest
    };
    assert(more =~= kept + two);
    let ours = forms_of(output.tracks, output.tracks.len() as int);
    let theirs = forms_of(source.tracks, source.tracks.len() as int);
    let three = novel_report(none, ours, theirs);
    assert(novel_report(more, ours, theirs) =~= more + three);
    assert(tempos + one + two + three =~= tempos + (one + (two + three)));
    (one, two + three)
}

/// The report holds one line on the tempos of each track, and it says `true` exactly where the
/// track has the tempo events of the source, every one at its tick and with its beats per
/// minute.
pub proof fn law_exact_tempos_are_told(source: ScoreView, output: ScoreView, percent: Seq<char>, i: int)
    requires
        0 <= i < output.tracks.len(),
    ensures
        same_events(output.tracks[i].tempos, source.all_tempos()) ==> exists|
            front: Seq<char>,
            back: Seq<char>,
        | #[trigger]
            is_made_of(
                score_report(source, output, percent),
                front,
                tempo_word_line(i + 1, "true"@, output.tracks[i].tempos.len() as int),
                back,
            ),
        !same_events(output.tracks[i].tempos, source.all_tempos()) ==> exists|
            front: Seq<char>,
            back: Seq<char>,
        | #[trigger]
            is_made_of(
                score_report(source, output, percent),
                front,
                tempo_word_line(i + 1, "false"@, output.tracks[i].tempos.len() as int),
                back,
            ),
{
    let n = output.tracks.len() as int;
    let truth = source.all_tempos();
    let sound = sound_report(n, output.notes());
    let line = tempo_word_line(
        i + 1,
        if same_events(output.tracks[i].tempos, truth) {
            "true"@
        } else {
            "false"@
        },
        output.tracks[i].tempos.len() as int,
    );
    lemma_line(sound, output.tracks, truth, i);
    let middle = lemma_lines(sound, output.tracks, truth, i + 1, n);
    let (kept, more) = lemma_behind(source, output, percent);
    let rest = kept + more;
    let front = tempo_report(sound, output.tracks, truth, i);
    assert(front + line + middle + rest =~= front + line + (middle + rest));
    assert(is_made_of(score_report(source, output, percent), front, line, middle + rest));
}

proof fn lemma_alike_ahead(text: Seq<char>, a: Seq<TrackView>, b: Seq<TrackView>, truth: Seq<Tempo>, n: int)
    requires
        0 <= n <= a.len(),
        n <= b.len(),
        forall|k: int| 0 <= k < n ==> (#[trigger] a[k]).tempos == b[k].tempos,
    ensures
        tempo_report(text, a, truth, n) == tempo_report(text, b, truth, n),
    decreases n,
{
    if n > 0 {
        lemma_alike_ahead(text, a, b, truth, n - 1);
        assert(a[n - 1].tempos == b[n - 1].tempos);
    }
}

/// Two outputs of the same notes, of which the one has the tempos of the source in a track and the
/// other has not, and which agree in the tracks before it, never have the same report.
pub proof fn law_other_tempos_are_told(
    source: ScoreView,
    exact: ScoreView,
    other: ScoreView,
    percent: Seq<char>,
    i: int,
)
    requires
        0 <= i < exact.tracks.len(),
        exact.tracks.len() == other.tracks.len(),
        exact.notes() == other.notes(),
        forall|k: int| 0 <= k < i ==> (#[trigger] exact.tracks[k]).tempos == other.tracks[k].tempos,
        same_events(exact.tracks[i].tempos, source.all_tempos()),
        !same_events(other.tracks[i].tempos, source.all_tempos()),
    ensures
        score_report(source, exact, percent) != score_report(source, other, percent),
{
    let n = exact.tracks.len() as int;
    let truth = source.all_tempos();
    let sound = sound_report(n, exact.notes());
    let front = tempo_report(sound, exact.tracks, truth, i);
    lemma_alike_ahead(sound, exact.tracks, other.tracks, truth, i);
    lemma_line(sound, exact.tracks, truth, i);
    lemma_line(sound, other.tracks, truth, i);
    let x = lemma_lines(sound, exact.tracks, truth, i + 1, n);
    let y = lemma_lines(sound, other.tracks, truth, i + 1, n);
    let p = lemma_behind(source, exact, percent);
    let q = lemma_behind(source, other, percent);
    reveal_strlit("true");
    reveal_strlit("false");
    let at = front.len() + ("track"@ + number_text(i + 1) + " tempo events exact: "@).len();
    assert(score_report(source, exact, percent)[at as int] == 't');
    assert(score_report(source, other, percent)[at as int] == 'f');
}

/// The line that tells how many notes there were, how many there are, and how many of these were
/// there before.
pub open spec fn count_line(before: int, after: int, common: int, percent: Seq<char>) -> Seq<char> {
    "input notes "@ + number_text(before) + ", output notes "@ + number_text(after)
        + ", exactly-preserved "@ + number_text(common) + " ("@ + percent + "% of output)\n"@
}

/// The report tells the number of the source's notes, of the output's, and of those that both have
/// in common.
pub proof fn law_counts_are_told(source: ScoreView, output: ScoreView, percent: Seq<char>)
    ensures
        exists|front: Seq<char>, back: Seq<char>| #[trigger]
            is_made_of(
                score_report(source, output, percent),
                front,
                count_line(
                    source.notes().len() as int,
                    output.notes().len() as int,
                    in_common(output.notes(), source.notes()),
                    percent,
                ),
                back,
            ),
{
    let (kept, more) = lemma_behind(source, output, percent);
    let n = output.tracks.len() as int;
    let front = tempo_report(
        sound_report(n, output.notes()),
        output.tracks,
        source.all_tempos(),
        n,
    );
    let line = count_line(
        source.notes().len() as int,
        output.notes().len() as int,
        in_common(output.notes(), source.notes()),
        percent,
    );
    assert(kept =~= line);
    assert(front + (kept + more) =~= front + line + more);
    assert(is_made_of(score_report(source, output, percent), front, line, more));
}

/// The greatest level that the report tells of is the greatest number of notes that sound together.
pub proof fn law_greatest_level(notes: Seq<Note>, n: int, t: int)
    requires
        n >= 0,
        first_event(notes) <= t < last_event(notes),
        voices(notes, t) <= n,
    ensures
        voices(notes, t) <= top_level(notes, n),
        top_level(notes, n) > 0 ==> exists|u: int| #[trigger] voices(notes, u) == top_level(notes, n),
    decreases n,
{
    let a = first_event(notes);
    let b = last_event(notes);
    if n > 0 {
        if ticks_with(notes, n, a, b) > 0 {
            let u = lemma_ticks_witness(notes, n, a, b);
            assert(voices(notes, u) == n);
        } else {
            if voices(notes, t) == n {
                lemma_ticks_counted(notes, n, a, b, t);
            }
            law_greatest_level(notes, n - 1, t);
        }
    }
}

/// The report says that no form is new exactly where the source uses every form that the output uses.
pub proof fn law_new_forms(output: Seq<Count>, source: Seq<Count>, n: int)
    requires
        0 <= n <= output.len(),
    ensures
        novel(output, source, n).len() == 0 <==> forall|i: int|
            0 <= i < n ==> exists|k: int|
                0 <= k < source.len() && (#[trigger] source[k]).0 == (#[trigger] output[i]).0,
    decreases n,
{
    if n > 0 {
        law_new_forms(output, source, n - 1);
        let key = output[n - 1].0;
        reveal_strlit("\"");
        if crate::verify::is_counted(source, key) {
            let k = choose|k: int| 0 <= k < source.len() && (#[trigger] source[k]).0 == key;
            assert(source[k].0 == output[n - 1].0);
        } else {
            assert(novel(output, source, n).len() > 0);
            if forall|i: int|
                0 <= i < n ==> exists|k: int|
                    0 <= k < source.len() && (#[trigger] source[k]).0 == (#[trigger] output[i]).0 {
                let k = choose|k: int|
                    0 <= k < source.len() && (#[trigger] source[k]).0 == output[n - 1].0;
                assert(source[k].0 == key);
            }
        }
    }
}

} // verus!
