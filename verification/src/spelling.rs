//! The different ways in which MML writes the same music.
use crate::mml::{digit_end, dot_end, duration_of, header_at, initial, lemma_lex_advances, lex, number_at, perform, read_from, read_part, sign_end, sign_sum, Command, MmlError, Reading};
use crate::score::Tick;
use crate::text::is_digit;
use vstd::arithmetic::power2::pow2;
use vstd::prelude::*;

verus! {

/// Whether a byte writes a sharp: a plus sign or a number sign.
pub open spec fn writes_sharp(b: u8) -> bool {
    b == 43 || b == 35
}

/// Whether two texts are the same, up to how they write sharps.
pub open spec fn sharps_aside(a: Seq<u8>, b: Seq<u8>) -> bool {
    &&& a.len() == b.len()
    &&& forall|k: int|
        0 <= k < a.len() ==> #[trigger] a[k] == b[k] || (writes_sharp(a[k]) && writes_sharp(b[k]))
}

proof fn lemma_runs(a: Seq<u8>, b: Seq<u8>, at: int)
    requires
        sharps_aside(a, b),
        0 <= at <= a.len(),
    ensures
        digit_end(a, at) == digit_end(b, at),
        dot_end(a, at) == dot_end(b, at),
        sign_end(a, at) == sign_end(b, at),
        sign_sum(a, at) == sign_sum(b, at),
        at <= digit_end(a, at) <= a.len() && at <= dot_end(a, at) <= a.len(),
        at <= sign_end(a, at) <= a.len(),
        forall|k: int| at <= k < digit_end(a, at) ==> is_digit(#[trigger] a[k]),
    decreases a.len() - at,
{
    if at < a.len() {
        assert(a[at] == b[at] || (writes_sharp(a[at]) && writes_sharp(b[at])));
        lemma_runs(a, b, at + 1);
    }
}

proof fn lemma_number(a: Seq<u8>, b: Seq<u8>, at: int)
    requires
        sharps_aside(a, b),
        0 <= at <= a.len(),
    ensures
        number_at(a, at) == number_at(b, at),
{
    lemma_runs(a, b, at);
    let end = digit_end(a, at);
    assert forall|k: int| at <= k < end implies a[k] == b[k] by {
        assert(is_digit(a[k]));
    }
    assert(a.subrange(at, end) =~= b.subrange(at, end));
}

proof fn lemma_lex(a: Seq<u8>, b: Seq<u8>, at: int)
    requires
        sharps_aside(a, b),
        0 <= at < a.len(),
    ensures
        lex(a, at) == lex(b, at),
{
    let p = at + 1;
    assert(a[at] == b[at] || (writes_sharp(a[at]) && writes_sharp(b[at])));
    lemma_runs(a, b, p);
    lemma_number(a, b, p);
    let q = sign_end(a, p);
    lemma_runs(a, b, q);
    lemma_number(a, b, q);
    lemma_runs(a, b, digit_end(a, p));
    lemma_runs(a, b, digit_end(a, q));
}

proof fn lemma_reading(a: Seq<u8>, b: Seq<u8>, at: int, r: Reading, src: (usize, usize))
    requires
        sharps_aside(a, b),
        0 <= at,
    ensures
        read_from(a, at, r, src) == read_from(b, at, r, src),
    decreases a.len() - at,
{
    if at < a.len() {
        assert(a[at] == b[at] || (writes_sharp(a[at]) && writes_sharp(b[at])));
        if at + 4 <= a.len() {
            assert(a[at + 1] == b[at + 1] || (writes_sharp(a[at + 1]) && writes_sharp(b[at + 1])));
            assert(a[at + 2] == b[at + 2] || (writes_sharp(a[at + 2]) && writes_sharp(b[at + 2])));
            assert(a[at + 3] == b[at + 3] || (writes_sharp(a[at + 3]) && writes_sharp(b[at + 3])));
        }
        assert(header_at(a, at) == header_at(b, at));
        if header_at(a, at) {
            lemma_reading(a, b, at + 4, r, src);
        } else {
            lemma_lex(a, b, at);
            lemma_lex_advances(a, at);
            if lex(a, at) is Ok {
                let (command, next) = lex(a, at)->Ok_0;
                if perform(r, command, src) is Ok {
                    lemma_reading(a, b, next, perform(r, command, src)->Ok_0, src);
                }
            }
        }
    }
}

/// A sharp may be written with a plus sign or with a number sign: texts that differ in nothing
/// else read as the same notes, tempos and length.
pub proof fn law_sharps_are_alike(a: Seq<u8>, b: Seq<u8>, src: (usize, usize))
    requires
        sharps_aside(a, b),
    ensures
        read_part(a, src) == read_part(b, src),
{
    lemma_reading(a, b, 0, initial(), src);
}

proof fn lemma_moved_runs(s: Seq<u8>, p: int, b: u8, at: int)
    requires
        0 <= p <= at <= s.len(),
    ensures
        digit_end(s.insert(p, b), at + 1) == digit_end(s, at) + 1,
        dot_end(s.insert(p, b), at + 1) == dot_end(s, at) + 1,
        sign_end(s.insert(p, b), at + 1) == sign_end(s, at) + 1,
        sign_sum(s.insert(p, b), at + 1) == sign_sum(s, at),
        at <= digit_end(s, at) <= s.len(),
        at <= dot_end(s, at) <= s.len(),
        at <= sign_end(s, at) <= s.len(),
    decreases s.len() - at,
{
    let t = s.insert(p, b);
    if at < s.len() {
        assert(t[at + 1] == s[at]);
        lemma_moved_runs(s, p, b, at + 1);
    }
}

proof fn lemma_moved_number(s: Seq<u8>, p: int, b: u8, at: int)
    requires
        0 <= p <= at <= s.len(),
        number_at(s, at) is Ok,
    ensures
        number_at(s.insert(p, b), at + 1) == number_at(s, at),
{
    let t = s.insert(p, b);
    lemma_moved_runs(s, p, b, at);
    let end = digit_end(s, at);
    assert(t.subrange(at + 1, end + 1) =~= s.subrange(at, end));
}

/// Whether a letter writes a note, and so many semitones above the c below it: from each letter
/// to the next it is a whole tone, but from e to f and from b to the c above half of one.
pub open spec fn writes_note(letter: u8, semitones: int) -> bool {
    ||| (letter == 67 || letter == 99) && semitones == 0
    ||| (letter == 68 || letter == 100) && semitones == 2
    ||| (letter == 69 || letter == 101) && semitones == 4
    ||| (letter == 70 || letter == 102) && semitones == 5
    ||| (letter == 71 || letter == 103) && semitones == 7
    ||| (letter == 65 || letter == 97) && semitones == 9
    ||| (letter == 66 || letter == 98) && semitones == 11
}

/// What a command that has been read does.
pub open spec fn done(s: Seq<u8>, at: int, r: Reading, src: (usize, usize)) -> Result<Reading, MmlError> {
    match lex(s, at) {
        Err(e) => Err(e),
        Ok((command, _)) => perform(r, command, src),
    }
}

/// Each sharp behind the letter of a note raises it by one semitone, and each flat lowers it by
/// one, whatever else stands behind the letter; nothing else of the note changes, and reading
/// goes on behind the same place.
pub proof fn law_signs_move_a_note(s: Seq<u8>, at: int, sign: u8, r: Reading, src: (usize, usize))
    requires
        0 <= at < s.len(),
        exists|n: int| writes_note(s[at], n),
        writes_sharp(sign) || sign == 45,
        !r.tie,
        s.len() < i64::MAX,
        done(s, at, r, src) is Ok,
        done(s.insert(at + 1, sign), at, r, src) is Ok,
    ensures
        ({
            let without = done(s, at, r, src)->Ok_0;
            let with = done(s.insert(at + 1, sign), at, r, src)->Ok_0;
            let n = r.notes.len() as int;
            &&& without.notes.len() == n + 1
            &&& with.notes.len() == n + 1
            &&& with.notes[n].pitch == without.notes[n].pitch + (if sign == 45 {
                -1int
            } else {
                1int
            })
            &&& with.notes[n].on == without.notes[n].on
            &&& with.notes[n].off == without.notes[n].off
            &&& with.notes[n].vel == without.notes[n].vel
            &&& with.time == without.time
            &&& forall|k: int| 0 <= k < n ==> #[trigger] with.notes[k] == without.notes[k]
            &&& lex(s.insert(at + 1, sign), at)->Ok_0.1 == lex(s, at)->Ok_0.1 + 1
        }),
{
    let t = s.insert(at + 1, sign);
    let p = at + 1;
    assert(t[at] == s[at]);
    assert(t[p] == sign);
    lemma_moved_runs(s, p, sign, p);
    let q = sign_end(s, p);
    lemma_moved_number(s, p, sign, q);
    lemma_moved_runs(s, p, sign, q);
    lemma_moved_runs(s, p, sign, digit_end(s, q));
    crate::mml::lemma_runs_advance(s, p);
    crate::mml::lemma_runs_advance(t, p);
}

/// A letter without signs behind it sounds so many semitones above the c of the octave that is
/// set, from now on, and as loud as is set. An octave is twelve semitones, and the c of octave
/// four is the middle one.
pub proof fn law_letters_sound(s: Seq<u8>, at: int, semitones: int, r: Reading, src: (usize, usize))
    requires
        0 <= at < s.len(),
        writes_note(s[at], semitones),
        at + 1 < s.len() ==> !writes_sharp(s[at + 1]) && s[at + 1] != 45,
        !r.tie,
        done(s, at, r, src) is Ok,
    ensures
        ({
            let after = done(s, at, r, src)->Ok_0;
            let n = r.notes.len() as int;
            &&& after.notes.len() == n + 1
            &&& forall|k: int| 0 <= k < n ==> #[trigger] after.notes[k] == r.notes[k]
            &&& after.notes[n].pitch == 60 + 12 * (r.octave - 4) + semitones
            &&& after.notes[n].vel == r.volume
            &&& after.notes[n].on == r.time
            &&& after.notes[n].off == after.time
            &&& after.time > r.time
            &&& after.octave == r.octave
            &&& after.volume == r.volume
            &&& after.tempos == r.tempos
        }),
{
    assert(sign_end(s, at + 1) == at + 1 && sign_sum(s, at + 1) == 0);
    let command = lex(s, at)->Ok_0.0;
    assert(command is Note);
    lemma_ticks(r, command->Note_2, command->Note_3);
}

proof fn lemma_ticks(r: Reading, length: Option<Tick>, dots: usize)
    requires
        crate::mml::ticks_of(r, length, dots) is Ok,
    ensures
        crate::mml::ticks_of(r, length, dots)->Ok_0 >= 1,
{
    let divisor = match length {
        Some(n) => n,
        None => r.length,
    };
    let count = if length is Some || dots > 0 {
        dots
    } else {
        r.dots
    };
    crate::mml::law_duration_range(divisor as int, count as nat);
}

/// An absolute note sounds as the letter does that stands for it in the octave that it counts
/// into, with the length that is set.
pub proof fn law_absolute_notes(r: Reading, octave: Tick, step: Tick, src: (usize, usize))
    requires
        0 <= octave <= 1000,
        0 <= step < 12,
    ensures
        ({
            let by_number = perform(r, Command::Absolute((12 * octave + step) as Tick), src);
            let by_letter = perform(
                Reading { octave, ..r },
                Command::Note(step, 0, None, 0),
                src,
            );
            match by_letter {
                Ok(x) => by_number == Ok::<_, MmlError>(Reading { octave: r.octave, ..x }),
                Err(e) => by_number == Err::<Reading, _>(e),
            }
        }),
{
}

/// A note or a rest without a length of its own has the one that was set last, dots and all.
pub proof fn law_set_length(r: Reading, n: Tick, dots: usize, step: Tick, accidental: i128, src: (usize, usize))
    requires
        perform(r, Command::Length(n, dots), src) is Ok,
    ensures
        ({
            let set = perform(r, Command::Length(n, dots), src)->Ok_0;
            &&& match perform(r, Command::Note(step, accidental, Some(n), dots), src) {
                Ok(x) => perform(set, Command::Note(step, accidental, None, 0), src) == Ok::<
                    _,
                    MmlError,
                >(Reading { length: n, dots, ..x }),
                Err(e) => perform(set, Command::Note(step, accidental, None, 0), src) == Err::<
                    Reading,
                    _,
                >(e),
            }
            &&& match perform(r, Command::Rest(Some(n), dots), src) {
                Ok(x) => perform(set, Command::Rest(None, 0), src) == Ok::<_, MmlError>(
                    Reading { length: n, dots, ..x },
                ),
                Err(e) => perform(set, Command::Rest(None, 0), src) == Err::<Reading, _>(e),
            }
        }),
{
}

/// A rest lasts as long as a note of its length does, and nothing sounds in it.
pub proof fn law_rests_are_silent(r: Reading, length: Option<Tick>, dots: usize, step: Tick, src: (usize, usize))
    requires
        perform(r, Command::Note(step, 0, length, dots), src) is Ok,
    ensures
        perform(r, Command::Rest(length, dots), src) is Ok,
        perform(r, Command::Rest(length, dots), src)->Ok_0.time == perform(
            r,
            Command::Note(step, 0, length, dots),
            src,
        )->Ok_0.time,
        perform(r, Command::Rest(length, dots), src)->Ok_0.notes == r.notes,
{
}

/// A note behind a tie goes on with the last one where it has its pitch, and is a note of its own
/// where it has not, or where a rest has come between.
pub proof fn law_ties(
    r: Reading,
    step: Tick,
    other: Tick,
    length: Option<Tick>,
    dots: usize,
    src: (usize, usize),
)
    requires
        r.held,
        !r.tie,
        r.notes.len() > 0,
        0 <= r.octave <= 1000,
        0 <= step < 12,
        0 <= other < 12,
        r.notes.last().pitch == 12 * (r.octave + 1) + step,
        perform(r, Command::Note(step, 0, length, dots), src) is Ok,
    ensures
        ({
            let tied = perform(r, Command::Tie, src)->Ok_0;
            let n = r.notes.len() as int;
            let on = perform(tied, Command::Note(step, 0, length, dots), src)->Ok_0;
            let new = perform(tied, Command::Note(other, 0, length, dots), src)->Ok_0;
            let plain = perform(r, Command::Note(step, 0, length, dots), src)->Ok_0;
            &&& perform(r, Command::Tie, src) is Ok
            &&& perform(tied, Command::Note(step, 0, length, dots), src) is Ok
            &&& perform(tied, Command::Note(other, 0, length, dots), src) is Ok
            &&& plain.notes.len() == n + 1
            &&& on.notes.len() == n
            &&& on.notes.last().on == r.notes.last().on
            &&& on.notes.last().off == plain.notes.last().off
            &&& on.time == plain.time
            &&& !on.tie
            &&& other != step ==> new.notes.len() == n + 1 && new.notes[n - 1] == r.notes[n - 1]
            &&& perform(tied, Command::Rest(length, dots), src) is Ok
            &&& !perform(tied, Command::Rest(length, dots), src)->Ok_0.tie
            &&& !perform(tied, Command::Rest(length, dots), src)->Ok_0.held
        }),
{
}

/// What follows a step up sounds an octave higher than it would have, and what follows a step
/// down an octave lower; an octave that is set counts from then on, whatever was set before.
pub proof fn law_octaves(r: Reading, step: Tick, length: Option<Tick>, dots: usize, octave: Tick, src: (usize, usize))
    requires
        0 <= r.octave <= 1000,
        0 <= octave <= 1000,
        0 <= step < 12,
        !r.tie,
        perform(r, Command::Note(step, 0, length, dots), src) is Ok,
    ensures
        ({
            let note = Command::Note(step, 0, length, dots);
            let up = perform(perform(r, Command::Up, src)->Ok_0, note, src)->Ok_0;
            let down = perform(perform(r, Command::Down, src)->Ok_0, note, src)->Ok_0;
            let set = perform(perform(r, Command::Octave(octave), src)->Ok_0, note, src)->Ok_0;
            let plain = perform(r, note, src)->Ok_0;
            &&& perform(perform(r, Command::Up, src)->Ok_0, note, src) is Ok
            &&& perform(perform(r, Command::Down, src)->Ok_0, note, src) is Ok
            &&& up.notes.last().pitch == plain.notes.last().pitch + 12
            &&& down.notes.last().pitch == plain.notes.last().pitch - 12
            &&& set.notes.last().pitch == plain.notes.last().pitch + 12 * (octave - r.octave)
        }),
{
}

/// A tempo counts from the tick that has been reached, and a volume for the notes that follow.
/// Neither makes time pass, and no note before it changes.
pub proof fn law_settings(r: Reading, n: Tick, src: (usize, usize))
    requires
        0 < n <= i32::MAX,
    ensures
        ({
            let tempo = perform(r, Command::Tempo(n), src)->Ok_0;
            let volume = perform(r, Command::Volume(n), src)->Ok_0;
            &&& perform(r, Command::Tempo(n), src) is Ok
            &&& perform(r, Command::Volume(n), src) is Ok
            &&& tempo.tempos.len() == r.tempos.len() + 1
            &&& tempo.tempos.last().0 == r.time
            &&& tempo.tempos.last().1 == n
            &&& tempo.notes == r.notes
            &&& tempo.time == r.time
            &&& volume.volume == n
            &&& volume.notes == r.notes
            &&& volume.tempos == r.tempos
            &&& volume.time == r.time
        }),
{
}

/// As many notes of a length as its number says fit into a whole note, and no longer ones would.
/// The dots of a length leave of twice the undotted ticks what is left when these are halved once
/// for each dot, rounded up.
pub proof fn law_durations(length: int, dots: nat)
    requires
        duration_of(length, dots) is Ok,
        length > 0,
    ensures
        ({
            let plain = duration_of(length, 0)->Ok_0 as int;
            let dotted = duration_of(length, dots)->Ok_0 as int;
            &&& duration_of(length, 0) is Ok
            &&& plain * length <= 384 < (plain + 1) * length
            &&& pow2(dots) * (2 * plain - dotted - 1) < plain <= pow2(dots) * (2 * plain - dotted)
        }),
        duration_of(0, 0) == Ok::<Tick, MmlError>(384),
{
    let base = 384int / length;
    assert(base * length <= 384 < (base + 1) * length && 0 <= base <= 384) by (nonlinear_arith)
        requires
            base == 384int / length,
            length > 0,
    ;
    crate::mml::law_duration_range(length, dots);
    vstd::arithmetic::power2::lemma2_to64();
    vstd::arithmetic::power2::lemma_pow2_pos(dots);
    crate::mml::law_duration_range(0, 0);
    let p = pow2(dots) as int;
    let x = (base + p - 1) / p;
    assert(p * (x - 1) < base <= p * x && 1 <= x <= base) by (nonlinear_arith)
        requires
            x == (base + p - 1) / p,
            p >= 1,
            base >= 1,
    ;
    assert((base + pow2(0) - 1) / (pow2(0) as int) == base) by {
        assert(pow2(0) == 1);
    }
}

proof fn lemma_behind_runs(pre: Seq<u8>, s: Seq<u8>, at: int)
    requires
        0 <= at <= s.len(),
    ensures
        digit_end(pre + s, pre.len() + at) == digit_end(s, at) + pre.len(),
        dot_end(pre + s, pre.len() + at) == dot_end(s, at) + pre.len(),
        sign_end(pre + s, pre.len() + at) == sign_end(s, at) + pre.len(),
        sign_sum(pre + s, pre.len() + at) == sign_sum(s, at),
        at <= digit_end(s, at) <= s.len(),
        at <= dot_end(s, at) <= s.len(),
        at <= sign_end(s, at) <= s.len(),
    decreases s.len() - at,
{
    let t = pre + s;
    if at < s.len() {
        assert(t[pre.len() + at] == s[at]);
        lemma_behind_runs(pre, s, at + 1);
    }
}

proof fn lemma_behind_number(pre: Seq<u8>, s: Seq<u8>, at: int)
    requires
        0 <= at <= s.len(),
    ensures
        number_at(s, at) is Ok ==> number_at(pre + s, pre.len() + at) == number_at(s, at),
        number_at(s, at) is Err ==> number_at(pre + s, pre.len() + at) is Err,
{
    let t = pre + s;
    lemma_behind_runs(pre, s, at);
    let end = digit_end(s, at);
    assert(t.subrange(pre.len() + at, pre.len() + end) =~= s.subrange(at, end));
}

proof fn lemma_behind_lex(pre: Seq<u8>, s: Seq<u8>, at: int)
    requires
        0 <= at < s.len(),
    ensures
        lex(s, at) matches Ok((command, next)) ==> lex(pre + s, pre.len() + at) == Ok::<_, MmlError>(
            (command, next + pre.len()),
        ),
        lex(s, at) is Err ==> lex(pre + s, pre.len() + at) is Err,
{
    let t = pre + s;
    let p = at + 1;
    assert(t[pre.len() + at] == s[at]);
    lemma_behind_runs(pre, s, p);
    lemma_behind_number(pre, s, p);
    let q = sign_end(s, p);
    lemma_behind_runs(pre, s, q);
    lemma_behind_number(pre, s, q);
    lemma_behind_runs(pre, s, digit_end(s, p));
    lemma_behind_runs(pre, s, digit_end(s, q));
}

proof fn lemma_behind(pre: Seq<u8>, s: Seq<u8>, at: int, r: Reading, src: (usize, usize))
    requires
        0 <= at,
    ensures
        read_from(s, at, r, src) is Ok ==> read_from(pre + s, pre.len() + at, r, src) == read_from(
            s,
            at,
            r,
            src,
        ),
        read_from(s, at, r, src) is Err ==> read_from(pre + s, pre.len() + at, r, src) is Err,
    decreases s.len() - at,
{
    let t = pre + s;
    if at < s.len() {
        assert(t[pre.len() + at] == s[at]);
        if at + 4 <= s.len() {
            assert(t[pre.len() + at + 1] == s[at + 1]);
            assert(t[pre.len() + at + 2] == s[at + 2]);
            assert(t[pre.len() + at + 3] == s[at + 3]);
        }
        assert(header_at(t, pre.len() + at) == header_at(s, at));
        if header_at(s, at) {
            lemma_behind(pre, s, at + 4, r, src);
        } else {
            lemma_behind_lex(pre, s, at);
            lemma_lex_advances(s, at);
            if lex(s, at) is Ok {
                let (command, next) = lex(s, at)->Ok_0;
                if perform(r, command, src) is Ok {
                    lemma_behind(pre, s, next, perform(r, command, src)->Ok_0, src);
                }
            }
        }
    }
}

/// A part that says nothing of it begins in the fourth octave, with quarter notes and at volume
/// eight: to write these out ahead of it changes nothing.
pub proof fn law_part_begins(s: Seq<u8>, src: (usize, usize))
    requires
        s.len() > 0 ==> !is_digit(s[0]) && s[0] != 46,
    ensures
        read_part(s, src) is Ok ==> read_part(seq![111u8, 52, 108, 52, 118, 56] + s, src)
            == read_part(s, src),
        read_part(s, src) is Err ==> read_part(seq![111u8, 52, 108, 52, 118, 56] + s, src) is Err,
{
    let pre = seq![111u8, 52, 108, 52, 118, 56];
    let t = pre + s;
    lemma_behind(pre, s, 0, initial(), src);
    reveal_with_fuel(digit_end, 3);
    reveal_with_fuel(crate::text::digits_value, 3);
    assert(t.subrange(1, 2) =~= seq![52u8]);
    assert(t.subrange(3, 4) =~= seq![52u8]);
    assert(t.subrange(5, 6) =~= seq![56u8]);
    assert(seq![52u8].drop_last() =~= Seq::<u8>::empty());
    assert(seq![56u8].drop_last() =~= Seq::<u8>::empty());
    assert(t[0] == 111 && t[1] == 52 && t[2] == 108 && t[3] == 52 && t[4] == 118 && t[5] == 56);
    assert(s.len() > 0 ==> t[6] == s[0]);
    assert(digit_end(t, 1) == 2);
    assert(digit_end(t, 3) == 4);
    assert(digit_end(t, 5) == 6);
    assert(dot_end(t, 4) == 4);
    let r = initial();
    assert(lex(t, 0) == Ok::<_, MmlError>((Command::Octave(4), 2int)));
    assert(lex(t, 2) == Ok::<_, MmlError>((Command::Length(4, 0), 4int)));
    assert(lex(t, 4) == Ok::<_, MmlError>((Command::Volume(8), 6int)));
    crate::mml::law_duration_range(4, 0);
    vstd::arithmetic::power2::lemma2_to64();
    assert(perform(r, Command::Octave(4), src)->Ok_0 =~= r);
    assert(duration_of(4, 0) is Ok);
    assert(perform(r, Command::Length(4, 0), src)->Ok_0 =~= r);
    assert(perform(r, Command::Volume(8), src)->Ok_0 =~= r);
    assert(read_from(t, 4, r, src) == read_from(t, 6, r, src));
    assert(read_from(t, 2, r, src) == read_from(t, 4, r, src));
    assert(read_from(t, 0, r, src) == read_from(t, 2, r, src));
}

} // verus!
