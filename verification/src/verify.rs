//! A report that holds a score against the one it came from.
use crate::bag::{compare_notes, excess, extra_view, in_common, total};
use crate::polyphony::{first_event, is_histogram, last_event, lemma_ticks_witness, lemma_voices, polyphony_histogram, ticks_with};
use crate::score::{Note, Score, ScoreView, Tempo, TrackView};
use crate::shapes::{forms_of, shapes};
use crate::tally::{Count, Tally};
use crate::text::{number_text, push_chars, push_count, push_number, push_text, string_of};
use vstd::prelude::*;

verus! {

/// A list of entries, each after the first set off by a comma.
pub open spec fn set_off(text: Seq<char>) -> Seq<char> {
    if text.len() == 0 {
        text
    } else {
        text + ", "@
    }
}

/// The first levels at which notes sound, each with the ticks it lasts for.
pub open spec fn levels(notes: Seq<Note>, n: int) -> Seq<char>
    decreases n,
{
    if n <= 0 {
        Seq::empty()
    } else {
        let before = levels(notes, n - 1);
        let ticks = ticks_with(notes, n - 1, first_event(notes), last_event(notes));
        if ticks == 0 {
            before
        } else {
            set_off(before) + number_text(n - 1) + ": "@ + number_text(ticks)
        }
    }
}

/// The greatest level up to a given one that lasts for some ticks.
pub open spec fn top_level(notes: Seq<Note>, n: int) -> int
    decreases n,
{
    if n <= 0 {
        0
    } else if ticks_with(notes, n, first_event(notes), last_event(notes)) > 0 {
        n
    } else {
        top_level(notes, n - 1)
    }
}

pub open spec fn truth_text(b: bool) -> Seq<char> {
    if b {
        "true"@
    } else {
        "false"@
    }
}

/// What the report says of the tempos of the first tracks.
pub open spec fn tempo_report(text: Seq<char>, tracks: Seq<TrackView>, truth: Seq<Tempo>, n: int) -> Seq<
    char,
>
    decreases n,
{
    if n <= 0 {
        text
    } else {
        tempo_report(text, tracks, truth, n - 1) + "track"@ + number_text(n)
            + " tempo events exact: "@ + truth_text(tracks[n - 1].tempos == truth) + " ("@
            + number_text(tracks[n - 1].tempos.len() as int) + ")\n"@
    }
}

/// What the report says of the first notes that only the output holds.
pub open spec fn extra_report(text: Seq<char>, extra: Seq<(Note, int)>, n: int) -> Seq<char>
    decreases n,
{
    if n <= 0 {
        text
    } else {
        let note = extra[n - 1].0;
        extra_report(text, extra, n - 1) + "    ("@ + number_text(note.on as int) + ", "@
            + number_text(note.off as int) + ", "@ + number_text(note.pitch as int) + ", "@
            + number_text(note.vel as int) + ") x"@ + number_text(extra[n - 1].1) + "\n"@
    }
}

/// Whether a text has been counted.
pub open spec fn is_counted(counts: Seq<Count>, key: Seq<char>) -> bool {
    exists|i: int| 0 <= i < counts.len() && (#[trigger] counts[i]).0 == key
}

/// The first forms of the output that the source does not use, with how often
/// each occurs.
pub open spec fn novel(output: Seq<Count>, source: Seq<Count>, n: int) -> Seq<char>
    decreases n,
{
    if n <= 0 {
        Seq::empty()
    } else {
        let before = novel(output, source, n - 1);
        if is_counted(source, output[n - 1].0) {
            before
        } else {
            set_off(before) + "\""@ + output[n - 1].0 + "\": "@ + number_text(output[n - 1].1)
        }
    }
}

/// The lines on the notes that only the output holds.
pub open spec fn excess_report(text: Seq<char>, extra: Seq<(Note, int)>) -> Seq<char> {
    if extra.len() == 0 {
        text
    } else {
        extra_report(
            text + "output notes not present verbatim in input: "@ + number_text(total(extra))
                + "\n"@,
            extra,
            if extra.len() < 8 {
                extra.len() as int
            } else {
                8
            },
        )
    }
}

/// The line on the forms that only the output uses.
pub open spec fn novel_report(text: Seq<char>, output: Seq<Count>, source: Seq<Count>) -> Seq<char> {
    let found = novel(output, source, output.len() as int);
    if found.len() == 0 {
        text + "constructs absent from the source dialect: none\n"@
    } else {
        text + "constructs absent from the source dialect: {"@ + found + "}\n"@
    }
}

/// The lines on the notes of the output.
pub open spec fn sound_report(tracks: int, notes: Seq<Note>) -> Seq<char> {
    Seq::<char>::empty() + "out tracks: "@ + number_text(tracks) + "  notes: "@ + number_text(
        notes.len() as int,
    ) + "\nout polyphony (voices: ticks): {"@ + levels(notes, notes.len() as int + 1)
        + "}\nmax polyphony: "@ + number_text(top_level(notes, notes.len() as int)) + "\n"@
}

/// The line on the notes that source and output have in common, with the share
/// of the output's notes that they make up, in percent.
pub open spec fn kept_report(
    text: Seq<char>,
    source: Seq<Note>,
    output: Seq<Note>,
    percent: Seq<char>,
) -> Seq<char> {
    text + "input notes "@ + number_text(source.len() as int) + ", output notes "@ + number_text(
        output.len() as int,
    ) + ", exactly-preserved "@ + number_text(in_common(output, source)) + " ("@ + percent
        + "% of output)\n"@
}

/// The report on a score and the one that was made of it.
pub open spec fn score_report(source: ScoreView, output: ScoreView, percent: Seq<char>) -> Seq<char> {
    let before = source.notes();
    let after = output.notes();
    let sound = sound_report(output.tracks.len() as int, after);
    let tempos = tempo_report(
        sound,
        output.tracks,
        source.all_tempos(),
        output.tracks.len() as int,
    );
    let kept = kept_report(tempos, before, after, percent);
    let more = excess_report(kept, excess(after, before));
    novel_report(
        more,
        forms_of(output.tracks, output.tracks.len() as int),
        forms_of(source.tracks, source.tracks.len() as int),
    )
}

/// Levels beyond the number of notes do not occur.
proof fn lemma_histogram(h: Seq<u128>, notes: Seq<Note>)
    requires
        is_histogram(h, notes),
    ensures
        h.len() <= notes.len() + 1,
        levels(notes, h.len() as int) == levels(notes, notes.len() as int + 1),
        top_level(notes, notes.len() as int) == (if h.len() == 0 {
            0int
        } else {
            h.len() - 1
        }),
{
    let a = first_event(notes);
    let b = last_event(notes);
    if h.len() > notes.len() + 1 {
        let v = h.len() - 1;
        assert(h[v] == ticks_with(notes, v as int, a, b));
        let t = lemma_ticks_witness(notes, v as int, a, b);
        lemma_voices(notes, t);
        assert(false);
    }
    lemma_no_more_levels(h, notes, notes.len() as int + 1);
    if h.len() > 0 {
        assert(h[h.len() - 1] == ticks_with(notes, h.len() - 1, a, b));
    }
    lemma_top(h, notes, notes.len() as int);
}

proof fn lemma_no_more_levels(h: Seq<u128>, notes: Seq<Note>, n: int)
    requires
        is_histogram(h, notes),
        h.len() <= n,
    ensures
        levels(notes, h.len() as int) == levels(notes, n),
    decreases n - h.len(),
{
    if h.len() < n {
        lemma_no_more_levels(h, notes, n - 1);
        assert(ticks_with(notes, n - 1, first_event(notes), last_event(notes)) == 0);
    }
}

proof fn lemma_top(h: Seq<u128>, notes: Seq<Note>, n: int)
    requires
        is_histogram(h, notes),
        h.len() <= n + 1,
        h.len() > 0 ==> ticks_with(notes, h.len() - 1, first_event(notes), last_event(notes)) > 0,
    ensures
        top_level(notes, n) == (if h.len() == 0 {
            0int
        } else {
            h.len() - 1
        }),
    decreases n,
{
    if n > 0 {
        if n >= h.len() {
            assert(ticks_with(notes, n, first_event(notes), last_event(notes)) == 0);
            lemma_top(h, notes, n - 1);
        }
    }
}

fn push_set_off(out: &mut Vec<char>)
    ensures
        final(out)@ == set_off(old(out)@),
{
    if out.len() > 0 {
        push_text(out, ", ");
    }
}

fn levels_text(h: &Vec<u128>, Ghost(notes): Ghost<Seq<Note>>) -> (text: Vec<char>)
    requires
        is_histogram(h@, notes),
    ensures
        text@ == levels(notes, h.len() as int),
{
    let mut text: Vec<char> = Vec::new();
    let mut i: usize = 0;
    while i < h.len()
        invariant
            i <= h.len(),
            is_histogram(h@, notes),
            text@ == levels(notes, i as int),
        decreases h.len() - i,
    {
        proof {
            assert(h@[i as int] == ticks_with(
                notes,
                i as int,
                first_event(notes),
                last_event(notes),
            ));
        }
        if h[i] != 0 {
            push_set_off(&mut text);
            push_count(&mut text, i as u128);
            push_text(&mut text, ": ");
            push_count(&mut text, h[i]);
        }
        i += 1;
    }
    text
}

fn same_tempos(a: &[Tempo], b: &[Tempo]) -> (r: bool)
    ensures
        r == (a@ == b@),
{
    if a.len() != b.len() {
        return false;
    }
    let mut i: usize = 0;
    while i < a.len()
        invariant
            i <= a.len() == b.len(),
            a@.take(i as int) == b@.take(i as int),
        decreases a.len() - i,
    {
        if a[i].0 != b[i].0 || a[i].1 != b[i].1 {
            proof {
                assert(a@[i as int] != b@[i as int]);
            }
            return false;
        }
        proof {
            assert(a@.take(i + 1) =~= a@.take(i as int).push(a@[i as int]));
            assert(b@.take(i + 1) =~= b@.take(i as int).push(b@[i as int]));
        }
        i += 1;
    }
    proof {
        assert(a@.take(i as int) =~= a@);
        assert(b@.take(i as int) =~= b@);
    }
    true
}

fn push_sound(tracks: usize, notes: &[Note]) -> (text: Vec<char>)
    ensures
        text@ == sound_report(tracks as int, notes@),
{
    let h = polyphony_histogram(notes);
    let found = levels_text(&h, Ghost(notes@));
    let top: usize = if h.len() == 0 {
        0
    } else {
        h.len() - 1
    };
    proof {
        lemma_histogram(h@, notes@);
    }
    let mut text: Vec<char> = Vec::new();
    push_text(&mut text, "out tracks: ");
    push_count(&mut text, tracks as u128);
    push_text(&mut text, "  notes: ");
    push_count(&mut text, notes.len() as u128);
    push_text(&mut text, "\nout polyphony (voices: ticks): {");
    push_chars(&mut text, &found);
    push_text(&mut text, "}\nmax polyphony: ");
    push_count(&mut text, top as u128);
    push_text(&mut text, "\n");
    text
}

fn push_tempos(text: &mut Vec<char>, output: &Score, truth: &[Tempo])
    ensures
        final(text)@ == tempo_report(
            old(text)@,
            output@.tracks,
            truth@,
            output@.tracks.len() as int,
        ),
{
    let ghost before = text@;
    let mut i: usize = 0;
    while i < output.tracks.len()
        invariant
            i <= output.tracks.len(),
            text@ == tempo_report(before, output@.tracks, truth@, i as int),
        decreases output.tracks.len() - i,
    {
        let tempos = &output.tracks[i].tempos;
        push_text(text, "track");
        push_count(text, i as u128 + 1);
        push_text(text, " tempo events exact: ");
        if same_tempos(tempos, truth) {
            push_text(text, "true");
        } else {
            push_text(text, "false");
        }
        push_text(text, " (");
        push_count(text, tempos.len() as u128);
        push_text(text, ")\n");
        i += 1;
    }
}

fn push_extra(text: &mut Vec<char>, extra: &Vec<(Note, usize)>, missing: usize)
    requires
        missing == total(extra_view(extra@)),
    ensures
        final(text)@ == excess_report(old(text)@, extra_view(extra@)),
{
    if extra.len() == 0 {
        return ;
    }
    push_text(text, "output notes not present verbatim in input: ");
    push_count(text, missing as u128);
    push_text(text, "\n");
    let ghost before = text@;
    let ghost list = extra_view(extra@);
    let mut i: usize = 0;
    while i < extra.len() && i < 8
        invariant
            i <= extra.len(),
            i <= 8,
            list == extra_view(extra@),
            text@ == extra_report(before, list, i as int),
        decreases extra.len() - i,
    {
        let note = extra[i].0;
        proof {
            assert(list[i as int] == (extra[i as int].0, extra[i as int].1 as int));
        }
        push_text(text, "    (");
        push_number(text, note.on);
        push_text(text, ", ");
        push_number(text, note.off);
        push_text(text, ", ");
        push_number(text, note.pitch as i64);
        push_text(text, ", ");
        push_number(text, note.vel as i64);
        push_text(text, ") x");
        push_count(text, extra[i].1 as u128);
        push_text(text, "\n");
        i += 1;
    }
}

fn novel_text(output: &Tally, source: &Tally) -> (text: Vec<char>)
    ensures
        text@ == novel(output@, source@, output@.len() as int),
{
    let mut text: Vec<char> = Vec::new();
    let mut i: usize = 0;
    while i < output.len()
        invariant
            i <= output@.len(),
            text@ == novel(output@, source@, i as int),
        decreases output@.len() - i,
    {
        let (shape, times) = output.entry(i);
        if !source.holds(shape.as_str()) {
            push_set_off(&mut text);
            push_text(&mut text, "\"");
            push_text(&mut text, shape.as_str());
            push_text(&mut text, "\": ");
            push_count(&mut text, times);
        }
        i += 1;
    }
    text
}

/// The number of notes of the output that the source holds too, and the number
/// of the output's notes: what the share of kept notes is made of.
pub fn preserved(source: &Score, output: &Score) -> (r: (usize, usize))
    ensures
        r.0 == in_common(output@.notes(), source@.notes()),
        r.1 == output@.notes().len(),
{
    let before = source.all_notes();
    let after = output.all_notes();
    (compare_notes(&after, &before).common, after.len())
}

/// Reports which notes, tempos and commands of a score an output has kept. The
/// share of kept notes comes written as a percentage.
pub fn verify_scores(source: &Score, output: &Score, percent: &str) -> (report: String)
    ensures
        report@ == score_report(source@, output@, percent@),
{
    let before = source.all_notes();
    let after = output.all_notes();
    let found = compare_notes(&after, &before);
    let mut text = push_sound(output.tracks.len(), &after);
    let truth = source.tempos();
    push_tempos(&mut text, output, &truth);
    push_text(&mut text, "input notes ");
    push_count(&mut text, before.len() as u128);
    push_text(&mut text, ", output notes ");
    push_count(&mut text, after.len() as u128);
    push_text(&mut text, ", exactly-preserved ");
    push_count(&mut text, found.common as u128);
    push_text(&mut text, " (");
    push_text(&mut text, percent);
    push_text(&mut text, "% of output)\n");
    push_extra(&mut text, &found.extra, found.missing);
    let ours = shapes(source);
    let theirs = shapes(output);
    let new = novel_text(&theirs, &ours);
    if new.len() == 0 {
        push_text(&mut text, "constructs absent from the source dialect: none\n");
    } else {
        push_text(&mut text, "constructs absent from the source dialect: {");
        push_chars(&mut text, &new);
        push_text(&mut text, "}\n");
    }
    string_of(&text)
}

} // verus!
