//! Reading what has been written: the MML of a part gives its notes and tempos back.
use crate::ascii::{COMMA, DOT, SEMICOLON};
use crate::lengths::{atom_of, is_atom, lemma_atom_of, lemma_split, split_of, total};
use crate::mml::{digit_end, dot_end, header_at, initial, is_sign, lemma_lex_advances, lex, number_at, perform, pitch_of, read_from, read_part, sign_end, sign_sum, step_of, ticks_of, Command, MmlError, Reading};
use crate::order::{lemma_stable_sort, sorted_by};
use crate::score::{by_onset, by_tick, tempo_key, Note, Tempo, Tick};
use crate::text::{decimal, is_digit, lemma_decimal_value};
use crate::writer::{blank, in_octaves, lemma_no_note_fault, lemma_no_tempo_fault, lemma_tempos_until, letter_of, own_length, part_text, put, sign_text, sound_notes, spelling_of, tempos_until, text_of, texts, with_atoms, with_length, with_note, with_notes, with_octave, with_rest_until, with_rests, with_stretches, with_tempos, written_part, Spelling, Written};
use vstd::prelude::*;

verus! {

/// Whether a byte cannot continue the command before it.
spec fn begins_command(b: u8) -> bool {
    !is_digit(b) && b != DOT && !is_sign(b)
}

spec fn is_step(step: Tick) -> bool {
    step == 0 || step == 2 || step == 4 || step == 5 || step == 7 || step == 9 || step == 11
}

/// Whether a command is one that a part is written with.
spec fn printable(c: Command) -> bool {
    match c {
        Command::Tempo(n) => n >= 0,
        Command::Volume(n) => n >= 0,
        Command::Octave(n) => n >= 0,
        Command::Length(n, _) => n >= 0,
        Command::Up => true,
        Command::Down => true,
        Command::Tie => true,
        Command::Rest(length, dots) => length is Some ==> length->Some_0 >= 0,
        Command::Note(step, accidental, length, dots) => is_step(step) && -1 <= accidental <= 1 && (
        length is Some ==> length->Some_0 >= 0),
        _ => false,
    }
}

spec fn all_printable(commands: Seq<Command>) -> bool {
    forall|i: int| 0 <= i < commands.len() ==> printable(#[trigger] commands[i])
}

proof fn lemma_digit_run(s: Seq<u8>, from: int, to: int)
    requires
        0 <= from <= to <= s.len(),
        forall|k: int| from <= k < to ==> is_digit(#[trigger] s[k]),
        to < s.len() ==> !is_digit(s[to]),
    ensures
        digit_end(s, from) == to,
    decreases to - from,
{
    if from < to {
        lemma_digit_run(s, from + 1, to);
    }
}

proof fn lemma_dot_run(s: Seq<u8>, from: int, to: int)
    requires
        0 <= from <= to <= s.len(),
        forall|k: int| from <= k < to ==> #[trigger] s[k] == DOT,
        to < s.len() ==> s[to] != DOT,
    ensures
        dot_end(s, from) == to,
    decreases to - from,
{
    if from < to {
        lemma_dot_run(s, from + 1, to);
    }
}

/// A number in digits, with nothing but a digit behind it excluded, is read as that number.
proof fn lemma_number(s: Seq<u8>, at: int, n: Tick)
    requires
        n >= 0,
        0 <= at,
        at + decimal(n as nat).len() <= s.len(),
        forall|k: int| 0 <= k < decimal(n as nat).len() ==> s[at + k] == #[trigger] decimal(
            n as nat,
        )[k],
        at + decimal(n as nat).len() < s.len() ==> !is_digit(s[at + decimal(n as nat).len()]),
    ensures
        number_at(s, at) == Ok::<Option<Tick>, MmlError>(Some(n)),
        digit_end(s, at) == at + decimal(n as nat).len(),
{
    let d = decimal(n as nat);
    lemma_decimal_value(n as nat);
    assert forall|k: int| at <= k < at + d.len() implies is_digit(#[trigger] s[k]) by {
        assert(s[at + (k - at)] == d[k - at]);
    }
    lemma_digit_run(s, at, at + d.len());
    assert(s.subrange(at, at + d.len()) =~= d) by {
        assert forall|k: int| 0 <= k < d.len() implies s.subrange(at, at + d.len())[k] == d[k] by {
            assert(s[at + k] == d[k]);
        }
    }
}

/// A length that may be left out is read as it was written.
proof fn lemma_own_length(s: Seq<u8>, at: int, length: Option<Tick>, dots: usize)
    requires
        length is Some ==> length->Some_0 >= 0,
        0 <= at,
        at + own_length(length, dots).len() <= s.len(),
        forall|k: int|
            0 <= k < own_length(length, dots).len() ==> s[at + k] == #[trigger] own_length(
                length,
                dots,
            )[k],
        at + own_length(length, dots).len() < s.len() ==> begins_command(
            s[at + own_length(length, dots).len()],
        ),
    ensures
        number_at(s, at) == Ok::<Option<Tick>, MmlError>(length),
        dot_end(s, digit_end(s, at)) == at + own_length(length, dots).len(),
        dot_end(s, digit_end(s, at)) - digit_end(s, at) == dots,
{
    let t = own_length(length, dots);
    let d = match length {
        Some(n) => decimal(n as nat),
        None => Seq::empty(),
    };
    let p = at + d.len();
    assert forall|k: int| p <= k < at + t.len() implies #[trigger] s[k] == DOT by {
        assert(s[at + (k - at)] == t[k - at]);
    }
    assert forall|k: int| 0 <= k < d.len() implies s[at + k] == #[trigger] d[k] by {
        assert(s[at + k] == t[k]);
    }
    if p < s.len() {
        if dots > 0 {
            assert(s[p] == DOT);
        }
        assert(!is_digit(s[p]));
    }
    match length {
        Some(n) => {
            lemma_number(s, at, n);
        },
        None => {
            lemma_digit_run(s, at, at);
            assert(s.subrange(at, at) =~= Seq::<u8>::empty());
        },
    }
    lemma_dot_run(s, p, at + t.len());
}

/// A command that has been written is read as that command.
#[verifier::rlimit(40)]
proof fn lemma_lex_text(s: Seq<u8>, at: int, c: Command)
    requires
        printable(c),
        0 <= at,
        at + text_of(c).len() <= s.len(),
        forall|k: int| 0 <= k < text_of(c).len() ==> s[at + k] == #[trigger] text_of(c)[k],
        at + text_of(c).len() < s.len() ==> begins_command(s[at + text_of(c).len()]),
    ensures
        text_of(c).len() > 0,
        lex(s, at) == Ok::<(Command, int), MmlError>((c, at + text_of(c).len())),
        !header_at(s, at),
        s[at] != SEMICOLON,
        begins_command(s[at]),
{
    let t = text_of(c);
    assert(t.len() > 0);
    assert(s[at + 0] == t[0]);
    let p = at + 1;
    match c {
        Command::Tempo(n) => {
            lemma_decimal_value(n as nat);
            assert forall|k: int| 0 <= k < decimal(n as nat).len() implies s[p + k]
                == #[trigger] decimal(n as nat)[k] by {
                assert(s[at + (k + 1)] == t[k + 1]);
            }
            lemma_number(s, p, n);
        },
        Command::Volume(n) => {
            lemma_decimal_value(n as nat);
            assert forall|k: int| 0 <= k < decimal(n as nat).len() implies s[p + k]
                == #[trigger] decimal(n as nat)[k] by {
                assert(s[at + (k + 1)] == t[k + 1]);
            }
            lemma_number(s, p, n);
        },
        Command::Octave(n) => {
            lemma_decimal_value(n as nat);
            assert forall|k: int| 0 <= k < decimal(n as nat).len() implies s[p + k]
                == #[trigger] decimal(n as nat)[k] by {
                assert(s[at + (k + 1)] == t[k + 1]);
            }
            lemma_number(s, p, n);
        },
        Command::Length(n, dots) => {
            let o = own_length(Some(n), dots);
            assert forall|k: int| 0 <= k < o.len() implies s[p + k] == #[trigger] o[k] by {
                assert(s[at + (k + 1)] == t[k + 1]);
            }
            lemma_own_length(s, p, Some(n), dots);
        },
        Command::Rest(length, dots) => {
            let o = own_length(length, dots);
            assert forall|k: int| 0 <= k < o.len() implies s[p + k] == #[trigger] o[k] by {
                assert(s[at + (k + 1)] == t[k + 1]);
            }
            lemma_own_length(s, p, length, dots);
        },
        Command::Note(step, accidental, length, dots) => {
            let g = sign_text(accidental);
            let o = own_length(length, dots);
            let q = p + g.len();
            assert(t =~= seq![letter_of(step)] + g + o);
            assert forall|k: int| 0 <= k < o.len() implies s[q + k] == #[trigger] o[k] by {
                assert(s[at + (k + 1 + g.len())] == t[k + 1 + g.len()]);
            }
            if g.len() > 0 {
                assert(s[at + 1] == t[1]);
            }
            if q < s.len() {
                assert(!is_sign(s[q])) by {
                    if o.len() > 0 {
                        assert(s[q + 0] == o[0]);
                        if length is Some {
                            lemma_decimal_value(length->Some_0 as nat);
                            assert(o[0] == decimal(length->Some_0 as nat)[0]);
                        }
                    }
                }
            }
            assert(sign_end(s, q) == q);
            assert(sign_sum(s, q) == 0);
            assert(sign_end(s, p) == q);
            assert(sign_sum(s, p) == accidental);
            lemma_own_length(s, q, length, dots);
            assert(step_of(letter_of(step)) == Some(step));
        },
        _ => {},
    }
}

proof fn lemma_texts_prefix(commands: Seq<Command>, k: int)
    requires
        0 <= k <= commands.len(),
    ensures
        texts(commands.take(k)).len() <= texts(commands).len(),
        forall|i: int|
            0 <= i < texts(commands.take(k)).len() ==> #[trigger] texts(commands)[i] == texts(
                commands.take(k),
            )[i],
    decreases commands.len(),
{
    if k == commands.len() {
        assert(commands.take(k) =~= commands);
    } else {
        lemma_texts_prefix(commands.drop_last(), k);
        assert(commands.drop_last().take(k) =~= commands.take(k));
    }
}

proof fn lemma_texts_at(commands: Seq<Command>, k: int)
    requires
        0 <= k < commands.len(),
    ensures
        texts(commands.take(k + 1)).len() == texts(commands.take(k)).len() + text_of(
            commands[k],
        ).len(),
        texts(commands.take(k + 1)).len() <= texts(commands).len(),
        forall|i: int|
            0 <= i < text_of(commands[k]).len() ==> texts(commands)[texts(commands.take(k)).len()
                + i] == #[trigger] text_of(commands[k])[i],
{
    lemma_texts_prefix(commands, k + 1);
    let longer = commands.take(k + 1);
    assert(longer.drop_last() =~= commands.take(k));
    assert(longer.last() == commands[k]);
    assert forall|i: int| 0 <= i < text_of(commands[k]).len() implies texts(commands)[texts(
        commands.take(k),
    ).len() + i] == #[trigger] text_of(commands[k])[i] by {
        assert(texts(longer)[texts(commands.take(k)).len() + i] == text_of(commands[k])[i]);
    }
}

/// What commands do one after the other.
spec fn performed(commands: Seq<Command>, src: (usize, usize)) -> Result<Reading, MmlError>
    decreases commands.len(),
{
    if commands.len() == 0 {
        Ok(initial())
    } else {
        match performed(commands.drop_last(), src) {
            Ok(r) => perform(r, commands.last(), src),
            Err(e) => Err(e),
        }
    }
}

proof fn lemma_performed_prefix(commands: Seq<Command>, k: int, src: (usize, usize))
    requires
        0 <= k < commands.len(),
        performed(commands, src) is Ok,
    ensures
        performed(commands.take(k), src) is Ok,
        performed(commands.take(k + 1), src) is Ok,
        perform(performed(commands.take(k), src)->Ok_0, commands[k], src) == performed(
            commands.take(k + 1),
            src,
        ),
    decreases commands.len(),
{
    if k + 1 == commands.len() {
        assert(commands.take(k) =~= commands.drop_last());
        assert(commands.take(k + 1) =~= commands);
    } else {
        let shorter = commands.drop_last();
        lemma_performed_prefix(shorter, k, src);
        assert(shorter.take(k) =~= commands.take(k));
        assert(shorter.take(k + 1) =~= commands.take(k + 1));
    }
}

/// Reading the text of commands does what the commands do, wherever the text stands: up to the
/// end or up to a semicolon.
proof fn lemma_read_texts(
    s: Seq<u8>,
    off: int,
    commands: Seq<Command>,
    k: int,
    src: (usize, usize),
)
    requires
        0 <= k <= commands.len(),
        0 <= off,
        off + texts(commands).len() <= s.len(),
        forall|i: int| 0 <= i < texts(commands).len() ==> s[off + i] == #[trigger] texts(commands)[i],
        off + texts(commands).len() < s.len() ==> s[off + texts(commands).len()] == SEMICOLON,
        all_printable(commands),
        performed(commands, src) is Ok,
        performed(commands.take(k), src) is Ok,
    ensures
        read_from(
            s,
            off + texts(commands.take(k)).len(),
            performed(commands.take(k), src)->Ok_0,
            src,
        ) == performed(commands, src),
    decreases commands.len() - k,
{
    let whole = texts(commands);
    let at = off + texts(commands.take(k)).len();
    if k == commands.len() {
        assert(commands.take(k) =~= commands);
    } else {
        lemma_texts_at(commands, k);
        lemma_performed_prefix(commands, k, src);
        lemma_read_texts(s, off, commands, k + 1, src);
        let next = off + texts(commands.take(k + 1)).len();
        if next < s.len() {
            if k + 1 == commands.len() {
                assert(commands.take(k + 1) =~= commands);
            } else {
                lemma_texts_at(commands, k + 1);
                lemma_begins(commands[k + 1]);
                let t = text_of(commands[k + 1]);
                assert(whole[next - off + 0] == t[0]);
                assert(s[off + (next - off)] == whole[next - off]);
            }
        }
        let c = commands[k];
        assert forall|i: int| 0 <= i < text_of(c).len() implies s[at + i] == #[trigger] text_of(
            c,
        )[i] by {
            assert(whole[at - off + i] == text_of(c)[i]);
            assert(s[off + (at - off + i)] == whole[at - off + i]);
        }
        lemma_lex_text(s, at, c);
        lemma_lex_advances(s, at);
    }
}

/// The text of a command does not continue the one before it.
proof fn lemma_begins(c: Command)
    requires
        printable(c),
    ensures
        text_of(c).len() > 0,
        begins_command(text_of(c)[0]),
{
}

/// The mark that opens a track's MML.
pub open spec fn opening_mark() -> Seq<u8> {
    seq![77u8, 77u8, 76u8, 64u8]
}

/// A text behind the opening mark and before a semicolon, as far as these are there.
pub open spec fn framed(text: Seq<u8>, opened: bool, closed: bool) -> Seq<u8> {
    (if opened {
        opening_mark()
    } else {
        Seq::empty()
    }) + text + (if closed {
        seq![SEMICOLON]
    } else {
        Seq::empty()
    })
}

/// Reading what commands have been written gives what they do.
proof fn lemma_read_written(
    commands: Seq<Command>,
    opened: bool,
    closed: bool,
    src: (usize, usize),
)
    requires
        all_printable(commands),
        performed(commands, src) is Ok,
    ensures
        read_part(framed(texts(commands), opened, closed), src) == performed(commands, src),
{
    assert(commands.take(0) =~= Seq::<Command>::empty());
    assert(texts(commands.take(0)) =~= Seq::<u8>::empty());
    let s = framed(texts(commands), opened, closed);
    let off: int = if opened {
        4
    } else {
        0
    };
    lemma_read_texts(s, off, commands, 0, src);
    if opened {
        assert(s[0] == 77 && s[1] == 77 && s[2] == 76 && s[3] == 64);
        assert(header_at(s, 0));
    }
}

/// Whether the settings that commands leave are those that reading them leaves.
spec fn agrees(w: Written, src: (usize, usize)) -> bool {
    &&& performed(w.commands, src) matches Ok(r) && r.octave == w.octave && r.volume == w.volume
        && r.length == w.length && r.dots == w.dots
    &&& all_printable(w.commands)
    &&& 0 <= w.octave <= 8
    &&& 0 <= w.volume
}

/// What reading the commands written so far gives.
spec fn reading(w: Written, src: (usize, usize)) -> Reading {
    performed(w.commands, src)->Ok_0
}

proof fn lemma_put(w: Written, c: Command, src: (usize, usize))
    requires
        agrees(w, src),
        printable(c),
    ensures
        all_printable(put(w, c).commands),
        performed(put(w, c).commands, src) == perform(reading(w, src), c, src),
{
    let longer = w.commands.push(c);
    assert(longer.drop_last() =~= w.commands);
    assert forall|i: int| 0 <= i < longer.len() implies printable(#[trigger] longer[i]) by {
        if i < w.commands.len() {
            assert(longer[i] == w.commands[i]);
        }
    }
}

/// The length that is written with an atom is read as the atom's ticks.
proof fn lemma_with_length(
    w: Written,
    ticks: int,
    notes: Seq<Note>,
    may_default: bool,
    src: (usize, usize),
)
    requires
        agrees(w, src),
        is_atom(ticks),
    ensures
        ({
            let (set, length, dots) = with_length(w, ticks, notes, may_default);
            let r = reading(w, src);
            let r2 = Reading { length: set.length, dots: set.dots, ..r };
            &&& agrees(set, src)
            &&& reading(set, src) == r2
            &&& ticks_of(r2, length, dots) == Ok::<Tick, MmlError>(ticks as Tick)
            &&& length is Some ==> length->Some_0 >= 0
            &&& set.time == w.time
            &&& set.octave == w.octave
            &&& set.volume == w.volume
        }),
{
    lemma_atom_of(ticks);
    let atom = atom_of(ticks);
    let (set, length, dots) = with_length(w, ticks, notes, may_default);
    let r = reading(w, src);
    if atom.length == w.length && atom.dots == w.dots {
        assert(Reading { length: set.length, dots: set.dots, ..r } =~= r);
    } else if length is None {
        lemma_put(w, Command::Length(atom.length, atom.dots), src);
    } else {
        assert(Reading { length: set.length, dots: set.dots, ..r } =~= r);
    }
}

proof fn lemma_take_atoms(atoms: Seq<Tick>)
    requires
        forall|i: int| 0 <= i < atoms.len() ==> is_atom((#[trigger] atoms[i]) as int),
        atoms.len() > 0,
    ensures
        forall|i: int|
            0 <= i < atoms.drop_last().len() ==> is_atom((#[trigger] atoms.drop_last()[i]) as int),
        is_atom(atoms.last() as int),
        6 <= atoms.last() <= 576,
{
    assert forall|i: int| 0 <= i < atoms.drop_last().len() implies is_atom(
        (#[trigger] atoms.drop_last()[i]) as int,
    ) by {
        assert(atoms.drop_last()[i] == atoms[i]);
    }
    assert(is_atom(atoms[atoms.len() - 1] as int));
    lemma_atom_of(atoms.last() as int);
}

proof fn lemma_total_positive(atoms: Seq<Tick>)
    requires
        forall|i: int| 0 <= i < atoms.len() ==> is_atom((#[trigger] atoms[i]) as int),
    ensures
        total(atoms) >= atoms.len(),
    decreases atoms.len(),
{
    if atoms.len() > 0 {
        lemma_take_atoms(atoms);
        lemma_total_positive(atoms.drop_last());
    }
}

/// Rests are read as silence of their ticks.
proof fn lemma_with_rests(w: Written, atoms: Seq<Tick>, notes: Seq<Note>, src: (usize, usize))
    requires
        agrees(w, src),
        forall|i: int| 0 <= i < atoms.len() ==> is_atom((#[trigger] atoms[i]) as int),
        0 <= reading(w, src).time,
        reading(w, src).time + total(atoms) <= i64::MAX,
    ensures
        ({
            let done = with_rests(w, atoms, notes);
            let r = reading(w, src);
            &&& agrees(done, src)
            &&& done.time == w.time
            &&& reading(done, src) == Reading {
                time: (r.time + total(atoms)) as Tick,
                held: r.held && atoms.len() == 0,
                tie: r.tie && atoms.len() == 0,
                length: done.length,
                dots: done.dots,
                ..r
            }
        }),
    decreases atoms.len(),
{
    let r = reading(w, src);
    if atoms.len() == 0 {
        assert(reading(with_rests(w, atoms, notes), src) =~= Reading {
            time: (r.time + total(atoms)) as Tick,
            held: r.held && atoms.len() == 0,
            tie: r.tie && atoms.len() == 0,
            length: w.length,
            dots: w.dots,
            ..r
        });
    } else {
        lemma_take_atoms(atoms);
        lemma_total_positive(atoms.drop_last());
        lemma_with_rests(w, atoms.drop_last(), notes, src);
        let before = with_rests(w, atoms.drop_last(), notes);
        lemma_with_length(before, atoms.last() as int, notes, true, src);
        let (set, length, dots) = with_length(before, atoms.last() as int, notes, true);
        lemma_put(set, Command::Rest(length, dots), src);
    }
}

/// A silence up to a tick is read as such.
proof fn lemma_with_rest_until(w: Written, tick: int, notes: Seq<Note>, src: (usize, usize))
    requires
        agrees(w, src),
        with_rest_until(w, tick, notes) is Ok,
        reading(w, src).time == w.time,
        !reading(w, src).tie,
        0 <= w.time <= tick <= i64::MAX,
    ensures
        ({
            let done = with_rest_until(w, tick, notes)->Ok_0;
            let r = reading(w, src);
            let r2 = reading(done, src);
            &&& agrees(done, src)
            &&& done.time == tick
            &&& r2.time == tick
            &&& !r2.tie
            &&& r2.notes == r.notes
            &&& r2.tempos == r.tempos
        }),
{
    if tick > w.time {
        let ticks = tick - w.time;
        lemma_split(ticks);
        let atoms = split_of(ticks)->Some_0;
        lemma_with_rests(w, atoms, notes, src);
        let rests = with_rests(w, atoms, notes);
        let done = with_rest_until(w, tick, notes)->Ok_0;
        assert(done.commands == rests.commands);
    }
}

/// Tempos behind silences are read at their ticks.
proof fn lemma_with_tempos(
    w: Written,
    tempos: Seq<Tempo>,
    from: int,
    to: int,
    notes: Seq<Note>,
    src: (usize, usize),
)
    requires
        agrees(w, src),
        with_tempos(w, tempos, from, to, notes) is Ok,
        reading(w, src).time == w.time,
        !reading(w, src).tie,
        0 <= from <= to <= tempos.len(),
        0 <= w.time,
        forall|k: int| from <= k < to ==> w.time <= (#[trigger] tempos[k]).0 && tempos[k].1 > 0,
        forall|k: int, l: int|
            from <= k <= l < to ==> (#[trigger] tempos[k]).0 <= (#[trigger] tempos[l]).0,
    ensures
        ({
            let done = with_tempos(w, tempos, from, to, notes)->Ok_0;
            let r = reading(w, src);
            let r2 = reading(done, src);
            &&& agrees(done, src)
            &&& done.time == (if from < to {
                tempos[to - 1].0
            } else {
                w.time
            })
            &&& r2.time == done.time
            &&& !r2.tie
            &&& r2.notes == r.notes
            &&& r2.tempos == r.tempos + tempos.subrange(from, to)
        }),
    decreases to - from,
{
    let r = reading(w, src);
    if from < to {
        let tick = tempos[from].0 as int;
        lemma_with_rest_until(w, tick, notes, src);
        let rested = with_rest_until(w, tick, notes)->Ok_0;
        let command = Command::Tempo(tempos[from].1 as Tick);
        lemma_put(rested, command, src);
        let next = put(rested, command);
        lemma_with_tempos(next, tempos, from + 1, to, notes, src);
        assert(r.tempos.push(tempos[from]) + tempos.subrange(from + 1, to) =~= r.tempos
            + tempos.subrange(from, to));
    } else {
        assert(r.tempos + tempos.subrange(from, to) =~= r.tempos);
    }
}

/// The pitch of a spelling is the pitch that it spells.
proof fn lemma_spelling(pitch: int, octave: int)
    requires
        i32::MIN <= pitch <= i32::MAX,
        spelling_of(pitch, octave) is Some,
    ensures
        ({
            let s = spelling_of(pitch, octave)->Some_0;
            &&& in_octaves(s)
            &&& is_step(s.step)
            &&& -1 <= s.accidental <= 1
            &&& pitch_of(s.octave as int, s.step as int, s.accidental as int) == Some(pitch)
        }),
{
    let s = spelling_of(pitch, octave)->Some_0;
    let q = pitch / 12;
    let step = pitch % 12;
    assert(pitch == 12 * q + step);
    assert(0 <= step < 12);
    assert((s.octave + 1) * 12 + s.step + s.accidental == pitch);
}

proof fn lemma_with_octave(w: Written, target: i32, src: (usize, usize))
    requires
        agrees(w, src),
        0 <= target <= 8,
    ensures
        ({
            let done = with_octave(w, target);
            &&& agrees(done, src)
            &&& done.time == w.time
            &&& reading(done, src) == Reading { octave: target as Tick, ..reading(w, src) }
            &&& done.volume == w.volume
        }),
{
    let r = reading(w, src);
    if target == w.octave + 1 {
        lemma_put(w, Command::Up, src);
    } else if target == w.octave + 2 {
        lemma_put(w, Command::Up, src);
        let one = Written { octave: (w.octave + 1) as i32, ..put(w, Command::Up) };
        lemma_put(one, Command::Up, src);
        assert(put(one, Command::Up).commands == put(put(w, Command::Up), Command::Up).commands);
    } else if target == w.octave - 1 {
        lemma_put(w, Command::Down, src);
    } else if target == w.octave - 2 {
        lemma_put(w, Command::Down, src);
        let one = Written { octave: (w.octave - 1) as i32, ..put(w, Command::Down) };
        lemma_put(one, Command::Down, src);
        assert(put(one, Command::Down).commands == put(
            put(w, Command::Down),
            Command::Down,
        ).commands);
    } else if target == w.octave {
        assert(Reading { octave: target as Tick, ..r } =~= r);
    } else {
        lemma_put(w, Command::Octave(target as Tick), src);
    }
}

/// The notes after a stretch of a note: a new one where it begins, else the last one longer.
spec fn stretched(r: Reading, pitch: i32, end: int, first: bool, src: (usize, usize)) -> Seq<
    Note,
> {
    if first {
        r.notes.push(Note { on: r.time, off: end as Tick, pitch, vel: r.volume, src })
    } else {
        r.notes.update(r.notes.len() - 1, Note { off: end as Tick, ..r.notes.last() })
    }
}

/// Tied notes are read as one.
proof fn lemma_with_atoms(
    w: Written,
    atoms: Seq<Tick>,
    spelling: Spelling,
    first: bool,
    notes: Seq<Note>,
    pitch: i32,
    src: (usize, usize),
)
    requires
        agrees(w, src),
        forall|i: int| 0 <= i < atoms.len() ==> is_atom((#[trigger] atoms[i]) as int),
        atoms.len() > 0,
        0 <= reading(w, src).time,
        reading(w, src).time + total(atoms) <= i64::MAX,
        !reading(w, src).tie,
        spelling.octave == w.octave,
        is_step(spelling.step),
        -1 <= spelling.accidental <= 1,
        pitch_of(spelling.octave as int, spelling.step as int, spelling.accidental as int) == Some(
            pitch as int,
        ),
        !first ==> reading(w, src).held && reading(w, src).notes.len() > 0 && reading(
            w,
            src,
        ).notes.last().pitch == pitch,
    ensures
        ({
            let done = with_atoms(w, atoms, spelling, first, notes);
            let r = reading(w, src);
            let end = r.time + total(atoms);
            &&& agrees(done, src)
            &&& done.octave == w.octave
            &&& done.volume == w.volume
            &&& reading(done, src) == Reading {
                time: end as Tick,
                held: true,
                tie: false,
                length: done.length,
                dots: done.dots,
                notes: stretched(r, pitch, end, first, src),
                ..r
            }
        }),
    decreases atoms.len(),
{
    let r = reading(w, src);
    lemma_take_atoms(atoms);
    let front = atoms.drop_last();
    lemma_total_positive(front);
    let before = with_atoms(w, front, spelling, first, notes);
    let begins = first && atoms.len() == 1;
    if atoms.len() > 1 {
        lemma_with_atoms(w, front, spelling, first, notes, pitch, src);
    } else {
        assert(front =~= Seq::<Tick>::empty());
        assert(total(front) == 0);
    }
    lemma_with_length(before, atoms.last() as int, notes, begins, src);
    let (set, length, dots) = with_length(before, atoms.last() as int, notes, begins);
    let command = Command::Note(spelling.step, spelling.accidental, length, dots);
    let end = r.time + total(atoms);
    if begins {
        lemma_put(set, command, src);
    } else {
        lemma_put(set, Command::Tie, src);
        lemma_put(put(set, Command::Tie), command, src);
        let mid = reading(before, src);
        assert(mid.notes.last().pitch == pitch);
        assert(mid.notes.update(
            mid.notes.len() - 1,
            Note { off: end as Tick, ..mid.notes.last() },
        ) =~= stretched(r, pitch, end, first, src));
    }
    let done = with_atoms(w, atoms, spelling, first, notes);
    assert(reading(done, src) =~= Reading {
        time: end as Tick,
        held: true,
        tie: false,
        length: done.length,
        dots: done.dots,
        notes: stretched(r, pitch, end, first, src),
        ..r
    });
}

/// A note that is cut by tempos is read as one note and those tempos.
#[verifier::rlimit(60)]
proof fn lemma_with_stretches(
    w: Written,
    note: Note,
    from: int,
    tempos: Seq<Tempo>,
    i: int,
    spelling: Spelling,
    first: bool,
    notes: Seq<Note>,
    base: Seq<Note>,
    src: (usize, usize),
)
    requires
        agrees(w, src),
        with_stretches(w, note, from, tempos, i, spelling, first, notes) is Ok,
        0 <= i <= tempos.len(),
        reading(w, src).time == from,
        !reading(w, src).tie,
        spelling.octave == w.octave,
        is_step(spelling.step),
        -1 <= spelling.accidental <= 1,
        pitch_of(spelling.octave as int, spelling.step as int, spelling.accidental as int) == Some(
            note.pitch as int,
        ),
        0 <= note.on <= from < note.off,
        w.volume == note.vel,
        first <==> from == note.on,
        first ==> reading(w, src).notes == base,
        !first ==> reading(w, src).held && reading(w, src).notes == base.push(
            Note { off: from as Tick, src, ..note },
        ),
        forall|k: int|
            i <= k < tempos.len() ==> from <= (#[trigger] tempos[k]).0 < note.off && note.on
                < tempos[k].0 && tempos[k].1 > 0,
        forall|k: int, l: int|
            i <= k <= l < tempos.len() ==> (#[trigger] tempos[k]).0 <= (#[trigger] tempos[l]).0,
    ensures
        ({
            let done = with_stretches(w, note, from, tempos, i, spelling, first, notes)->Ok_0;
            let r = reading(w, src);
            let r2 = reading(done, src);
            &&& agrees(done, src)
            &&& r2.time == note.off
            &&& !r2.tie
            &&& r2.notes == base.push(Note { src, ..note })
            &&& r2.tempos == r.tempos + tempos.subrange(i, tempos.len() as int)
        }),
    decreases tempos.len() - i,
{
    let r = reading(w, src);
    let to = if i < tempos.len() {
        tempos[i].0 as int
    } else {
        note.off as int
    };
    lemma_split(to - from);
    let atoms = split_of(to - from)->Some_0;
    let stretch = with_atoms(w, atoms, spelling, first, notes);
    let part = Note { off: to as Tick, src, ..note };
    if atoms.len() > 0 {
        lemma_with_atoms(w, atoms, spelling, first, notes, note.pitch, src);
        assert(stretched(r, note.pitch, to, first, src) =~= base.push(part));
    }
    let mid = reading(stretch, src);
    assert(mid.notes == base.push(part) && mid.held);
    if i < tempos.len() {
        let command = Command::Tempo(tempos[i].1 as Tick);
        lemma_put(stretch, command, src);
        let next = put(stretch, command);
        lemma_with_stretches(
            next,
            note,
            to,
            tempos,
            i + 1,
            spelling,
            first && to == from,
            notes,
            base,
            src,
        );
        assert(r.tempos.push(tempos[i]) + tempos.subrange(i + 1, tempos.len() as int) =~= r.tempos
            + tempos.subrange(i, tempos.len() as int));
    } else {
        assert(part == Note { src, ..note });
        assert(r.tempos + tempos.subrange(i, tempos.len() as int) =~= r.tempos);
    }
}

/// A note with the tempos inside it is read as that note and those tempos.
proof fn lemma_with_note(
    w: Written,
    note: Note,
    tempos: Seq<Tempo>,
    notes: Seq<Note>,
    src: (usize, usize),
)
    requires
        agrees(w, src),
        with_note(w, note, tempos, notes) is Ok,
        reading(w, src).time == note.on,
        !reading(w, src).tie,
        0 <= note.on < note.off,
        note.vel >= 0,
        forall|k: int|
            0 <= k < tempos.len() ==> note.on < (#[trigger] tempos[k]).0 < note.off && tempos[k].1
                > 0,
        forall|k: int, l: int|
            0 <= k <= l < tempos.len() ==> (#[trigger] tempos[k]).0 <= (#[trigger] tempos[l]).0,
    ensures
        ({
            let done = with_note(w, note, tempos, notes)->Ok_0;
            let r = reading(w, src);
            let r2 = reading(done, src);
            &&& agrees(done, src)
            &&& done.time == note.off
            &&& r2.time == note.off
            &&& !r2.tie
            &&& r2.notes == r.notes.push(Note { src, ..note })
            &&& r2.tempos == r.tempos + tempos
        }),
{
    let command = Command::Volume(note.vel as Tick);
    let louder = if note.vel != w.volume {
        Written { volume: note.vel, ..put(w, command) }
    } else {
        w
    };
    if note.vel != w.volume {
        lemma_put(w, command, src);
    }
    let spelling = spelling_of(note.pitch as int, w.octave as int)->Some_0;
    lemma_spelling(note.pitch as int, w.octave as int);
    lemma_with_octave(louder, spelling.octave, src);
    let set = with_octave(louder, spelling.octave);
    lemma_with_stretches(
        set,
        note,
        note.on as int,
        tempos,
        0,
        spelling,
        true,
        notes,
        reading(w, src).notes,
        src,
    );
    assert(tempos.subrange(0, tempos.len() as int) =~= tempos);
}

/// Notes as they are read: all from the same part.
pub open spec fn relocated(notes: Seq<Note>, src: (usize, usize)) -> Seq<Note> {
    Seq::new(notes.len(), |i: int| Note { src, ..notes[i] })
}

/// The tick at which the last of some notes and tempos ends or stands.
pub open spec fn part_end(notes: Seq<Note>, tempos: Seq<Tempo>) -> int {
    let last_note = if notes.len() == 0 {
        0
    } else {
        notes.last().off as int
    };
    let last_tempo = if tempos.len() == 0 {
        0
    } else {
        tempos.last().0 as int
    };
    if last_note < last_tempo {
        last_tempo
    } else {
        last_note
    }
}

#[verifier::rlimit(80)]
proof fn lemma_with_notes(
    w: Written,
    notes: Seq<Note>,
    i: int,
    tempos: Seq<Tempo>,
    j: int,
    src: (usize, usize),
)
    requires
        agrees(w, src),
        with_notes(w, notes, i, tempos, j) is Ok,
        0 <= i <= notes.len(),
        0 <= j <= tempos.len(),
        sound_notes(notes),
        reading(w, src).time == w.time,
        !reading(w, src).tie,
        0 <= w.time,
        i < notes.len() ==> w.time <= notes[i].on,
        forall|k: int|
            j <= k < tempos.len() ==> w.time <= (#[trigger] tempos[k]).0 && tempos[k].1 > 0,
        forall|k: int, l: int|
            0 <= k <= l < tempos.len() ==> (#[trigger] tempos[k]).0 <= (#[trigger] tempos[l]).0,
        forall|k: int| 0 <= k < j ==> (#[trigger] tempos[k]).0 <= w.time,
        w.time == part_end(notes.take(i), tempos.take(j)),
    ensures
        ({
            let done = with_notes(w, notes, i, tempos, j)->Ok_0;
            let r = reading(w, src);
            let r2 = reading(done, src);
            &&& agrees(done, src)
            &&& r2.notes == r.notes + relocated(notes.subrange(i, notes.len() as int), src)
            &&& r2.tempos == r.tempos + tempos.subrange(j, tempos.len() as int)
            &&& r2.time == part_end(notes, tempos)
        }),
    decreases notes.len() - i,
{
    let r = reading(w, src);
    if i < notes.len() {
        let note = notes[i];
        let begin = tempos_until(tempos, j, note.on + 1);
        let end = tempos_until(tempos, begin, note.off as int);
        lemma_tempos_until(tempos, j, note.on + 1);
        lemma_tempos_until(tempos, begin, note.off as int);
        lemma_with_tempos(w, tempos, j, begin, notes, src);
        let led = with_tempos(w, tempos, j, begin, notes)->Ok_0;
        lemma_with_rest_until(led, note.on as int, notes, src);
        let rested = with_rest_until(led, note.on as int, notes)->Ok_0;
        let inside = tempos.subrange(begin, end);
        assert forall|k: int| 0 <= k < inside.len() implies note.on < (#[trigger] inside[k]).0
            < note.off && inside[k].1 > 0 by {
            assert(inside[k] == tempos[begin + k]);
            assert(tempos[begin].0 <= tempos[begin + k].0);
        }
        assert forall|k: int, l: int| 0 <= k <= l < inside.len() implies (#[trigger] inside[k]).0
            <= (#[trigger] inside[l]).0 by {
            assert(inside[k] == tempos[begin + k]);
            assert(inside[l] == tempos[begin + l]);
        }
        lemma_with_note(rested, note, inside, notes, src);
        let done = with_note(rested, note, inside, notes)->Ok_0;
        if i + 1 < notes.len() {
            assert(notes[i].off <= notes[i + 1].on);
        }
        assert forall|k: int| end <= k < tempos.len() implies note.off <= (
        #[trigger] tempos[k]).0 && tempos[k].1 > 0 by {
            assert(tempos[end].0 <= tempos[k].0);
        }
        assert forall|k: int| 0 <= k < end implies (#[trigger] tempos[k]).0 <= note.off by {
            if k >= j && k < begin {
                assert(tempos[k].0 < note.on + 1);
            }
        }
        assert(notes.take(i + 1).last() == note);
        if end > 0 {
            assert(tempos.take(end).last() == tempos[end - 1]);
        }
        lemma_with_notes(done, notes, i + 1, tempos, end, src);
        assert(r.notes.push(Note { src, ..note }) + relocated(
            notes.subrange(i + 1, notes.len() as int),
            src,
        ) =~= r.notes + relocated(notes.subrange(i, notes.len() as int), src));
        assert(r.tempos + tempos.subrange(j, begin) + inside + tempos.subrange(
            end,
            tempos.len() as int,
        ) =~= r.tempos + tempos.subrange(j, tempos.len() as int));
    } else {
        lemma_with_tempos(w, tempos, j, tempos.len() as int, notes, src);
        assert(relocated(notes.subrange(i, notes.len() as int), src) =~= Seq::<Note>::empty());
        assert(notes.take(i) =~= notes);
        if j == tempos.len() {
            assert(tempos.take(j) =~= tempos);
        }
    }
}

/// Reading the MML of a part gives back its notes in the order in which they begin, its
/// tempos in the order of their ticks, and ends with the last of them; as the first or the
/// last part of a track too.
pub proof fn law_part_reads_back(
    notes: Seq<Note>,
    tempos: Seq<Tempo>,
    total: int,
    opened: bool,
    closed: bool,
    src: (usize, usize),
)
    requires
        part_text(notes, tempos, total) is Ok,
    ensures
        read_part(
            framed(part_text(notes, tempos, total)->Ok_0, opened, closed),
            src,
        ) matches Ok(part) && {
            &&& part.notes == relocated(by_onset(notes), src)
            &&& part.tempos == by_tick(tempos)
            &&& part.time == part_end(by_onset(notes), by_tick(tempos))
        },
{
    let s = by_onset(notes);
    let t = by_tick(tempos);
    assert(s.take(0) =~= Seq::<Note>::empty());
    assert(t.take(0) =~= Seq::<Tempo>::empty());
    lemma_no_note_fault(s, 0);
    lemma_no_tempo_fault(t, 0);
    lemma_stable_sort(tempos, |t: Tempo| tempo_key(t));
    assert forall|k: int, l: int| 0 <= k <= l < t.len() implies (#[trigger] t[k]).0 <= (
    #[trigger] t[l]).0 by {
        assert(sorted_by(t, |t: Tempo| tempo_key(t)));
    }
    let w = blank();
    assert(performed(w.commands, src) == Ok::<Reading, MmlError>(initial()));
    lemma_with_notes(w, s, 0, t, 0, src);
    let done = with_notes(w, s, 0, t, 0)->Ok_0;
    lemma_read_written(done.commands, opened, closed, src);
    assert(s.subrange(0, s.len() as int) =~= s);
    assert(t.subrange(0, t.len() as int) =~= t);
    assert(initial().notes + relocated(s, src) =~= relocated(s, src));
    assert(initial().tempos + t =~= t);
}

/// The MML of a part holds neither a comma nor anything but ASCII.
pub proof fn lemma_part_bytes(notes: Seq<Note>, tempos: Seq<Tempo>, total: int)
    requires
        part_text(notes, tempos, total) is Ok,
    ensures
        forall|i: int|
            0 <= i < part_text(notes, tempos, total)->Ok_0.len() ==> (#[trigger] part_text(
                notes,
                tempos,
                total,
            )->Ok_0[i]) != COMMA && part_text(notes, tempos, total)->Ok_0[i] < 128,
{
    lemma_no_comma(written_part(notes, tempos, total)->Ok_0.commands);
}

proof fn lemma_no_comma(commands: Seq<Command>)
    ensures
        forall|i: int|
            0 <= i < texts(commands).len() ==> (#[trigger] texts(commands)[i]) != COMMA && texts(
                commands,
            )[i] < 128,
    decreases commands.len(),
{
    if commands.len() > 0 {
        lemma_no_comma(commands.drop_last());
        let c = commands.last();
        let t = text_of(c);
        match c {
            Command::Tempo(n) => {
                lemma_decimal_value(n as nat);
            },
            Command::Volume(n) => {
                lemma_decimal_value(n as nat);
            },
            Command::Octave(n) => {
                lemma_decimal_value(n as nat);
            },
            Command::Length(n, _) => {
                lemma_decimal_value(n as nat);
            },
            Command::Rest(length, _) => {
                if length is Some {
                    lemma_decimal_value(length->Some_0 as nat);
                }
            },
            Command::Note(_, _, length, _) => {
                if length is Some {
                    lemma_decimal_value(length->Some_0 as nat);
                }
            },
            _ => {},
        }
        assert(forall|i: int| 0 <= i < t.len() ==> (#[trigger] t[i]) != COMMA && t[i] < 128);
        assert forall|i: int| 0 <= i < texts(commands).len() implies (
        #[trigger] texts(commands)[i]) != COMMA && texts(commands)[i] < 128 by {
            let before = texts(commands.drop_last());
            if i < before.len() {
                assert(texts(commands)[i] == before[i]);
            } else {
                assert(texts(commands)[i] == t[i - before.len()]);
            }
        }
    }
}

} // verus!
