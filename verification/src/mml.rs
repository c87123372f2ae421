//! The grammar of MML and what its commands mean: the text of one part as notes and tempos.
use crate::ascii::{
    AMPERSAND, AT, DOT, GREATER, LESS, LETTER_A, LETTER_B, LETTER_C, LETTER_D, LETTER_E, LETTER_F, LETTER_G, LETTER_L, LETTER_M, LETTER_N, LETTER_O, LETTER_R, LETTER_T, LETTER_V, MINUS, PLUS, SEMICOLON, SHARP,
};
use crate::score::{Note, Tempo, Tick};
use crate::text::{digits_value, is_digit};
use vstd::arithmetic::power2::pow2;
use vstd::prelude::*;
use vstd::utf8::encode_utf8;

verus! {

/// The ticks of a whole note.
pub const WHOLE: Tick = 384;

/// The shortest duration that a length can write.
pub const MIN_TICK: Tick = 6;

/// Why the text of a part cannot be read.
#[derive(Clone, Copy, Debug, PartialEq, Eq, Structural)]
pub enum MmlError {
    NegativeLength { length: Tick },
    ZeroDuration { length: Tick },
    NumberTooLarge { byte: usize },
    MissingNumber { command: u8, byte: usize },
    TempoNotPositive { tick: Tick },
    TempoTooLarge,
    VolumeTooLarge,
    OctaveOverflow,
    AbsolutePitchOverflow,
    PitchOverflow,
    PitchTooLarge,
    ScoreTooLong,
}

/// One command of MML. A length is the divisor of a whole note and a number of dots.
#[derive(Clone, Copy, Debug, PartialEq, Eq)]
pub enum Command {
    Tempo(Tick),
    Volume(Tick),
    Octave(Tick),
    Length(Tick, usize),
    Up,
    Down,
    Tie,
    Absolute(Tick),
    Rest(Option<Tick>, usize),
    Note(Tick, i128, Option<Tick>, usize),
    Other,
}

/// What has been read of a part, and the settings under which the next command stands.
#[verifier::ext_equal]
pub struct Reading {
    pub octave: Tick,
    pub length: Tick,
    pub dots: usize,
    pub volume: i32,
    pub time: Tick,
    pub notes: Seq<Note>,
    pub tempos: Seq<Tempo>,
    /// Whether nothing has silenced the last note since it began.
    pub held: bool,
    /// Whether the next note prolongs the last one where it repeats its pitch.
    pub tie: bool,
}

/// The state in which every part begins.
pub open spec fn initial() -> Reading {
    Reading {
        octave: 4,
        length: 4,
        dots: 0,
        volume: 8,
        time: 0,
        notes: Seq::empty(),
        tempos: Seq::empty(),
        held: false,
        tie: false,
    }
}

pub open spec fn fits(n: int) -> bool {
    i64::MIN <= n <= i64::MAX
}

/// The undotted ticks of a length; a length of zero stands for a whole note.
pub open spec fn base_ticks(length: int) -> int {
    if length == 0 {
        384
    } else {
        384int / length
    }
}

/// The ticks of a length with dots: the whole part of `base * (2 - 1 / 2^dots)`.
pub open spec fn duration_of(length: int, dots: nat) -> Result<Tick, MmlError> {
    if length < 0 {
        Err(MmlError::NegativeLength { length: length as Tick })
    } else if base_ticks(length) == 0 {
        Err(MmlError::ZeroDuration { length: length as Tick })
    } else {
        let base = base_ticks(length);
        Ok((2 * base - (base + pow2(dots) - 1) / (pow2(dots) as int)) as Tick)
    }
}

proof fn lemma_dotted(base: int, dots: nat)
    requires
        1 <= base <= 384,
    ensures
        dots == 0 ==> (base + pow2(dots) - 1) / (pow2(dots) as int) == base,
        dots >= 10 ==> (base + pow2(dots) - 1) / (pow2(dots) as int) == 1,
        1 <= (base + pow2(dots) - 1) / (pow2(dots) as int) <= base,
{
    vstd::arithmetic::power2::lemma_pow2_pos(dots);
    vstd::arithmetic::power2::lemma2_to64();
    let p = pow2(dots) as int;
    if dots >= 10 {
        if dots > 10 {
            vstd::arithmetic::power2::lemma_pow2_strictly_increases(10, dots);
        }
        assert((base + p - 1) / p == 1) by (nonlinear_arith)
            requires
                1 <= base <= 384,
                p >= 1024,
        ;
    } else {
        assert(1 <= (base + p - 1) / p <= base) by (nonlinear_arith)
            requires
                1 <= base,
                p >= 1,
        ;
    }
}

/// The ticks of a length of at least one lie between one and twice a whole note.
pub proof fn law_duration_range(length: int, dots: nat)
    requires
        duration_of(length, dots) is Ok,
    ensures
        1 <= duration_of(length, dots)->Ok_0 <= 767,
        duration_of(length, dots)->Ok_0 >= base_ticks(length),
        dots == 0 ==> duration_of(length, dots)->Ok_0 == base_ticks(length),
{
    let base = base_ticks(length);
    if length > 0 {
        assert(0 <= 384int / length <= 384) by (nonlinear_arith)
            requires
                length > 0,
        ;
    }
    lemma_dotted(base, dots);
}

/// The end of the digits that begin at a position.
pub open spec fn digit_end(s: Seq<u8>, at: int) -> int
    decreases s.len() - at,
{
    if 0 <= at < s.len() && is_digit(s[at]) {
        digit_end(s, at + 1)
    } else {
        at
    }
}

/// The end of the dots that begin at a position.
pub open spec fn dot_end(s: Seq<u8>, at: int) -> int
    decreases s.len() - at,
{
    if 0 <= at < s.len() && s[at] == DOT {
        dot_end(s, at + 1)
    } else {
        at
    }
}

pub open spec fn is_sign(b: u8) -> bool {
    b == PLUS || b == SHARP || b == MINUS
}

/// The end of the accidentals that begin at a position.
pub open spec fn sign_end(s: Seq<u8>, at: int) -> int
    decreases s.len() - at,
{
    if 0 <= at < s.len() && is_sign(s[at]) {
        sign_end(s, at + 1)
    } else {
        at
    }
}

/// The semitones by which the accidentals at a position raise a note.
pub open spec fn sign_sum(s: Seq<u8>, at: int) -> int
    decreases s.len() - at,
{
    if 0 <= at < s.len() && is_sign(s[at]) {
        (if s[at] == MINUS {
            -1int
        } else {
            1int
        }) + sign_sum(s, at + 1)
    } else {
        0
    }
}

/// The number at a position, where digits stand there.
pub open spec fn number_at(s: Seq<u8>, at: int) -> Result<Option<Tick>, MmlError> {
    let end = digit_end(s, at);
    let value = digits_value(s.subrange(at, end));
    if end == at {
        Ok(None)
    } else if value > i64::MAX {
        Err(MmlError::NumberTooLarge { byte: (at + 1) as usize })
    } else {
        Ok(Some(value as Tick))
    }
}

/// A byte with an ASCII capital letter made small.
pub open spec fn lower(b: u8) -> u8 {
    if 65 <= b <= 90 {
        (b + 32) as u8
    } else {
        b
    }
}

/// Whether the mark that opens a track's MML stands at a position.
pub open spec fn header_at(s: Seq<u8>, at: int) -> bool {
    &&& 0 <= at
    &&& at + 4 <= s.len()
    &&& lower(s[at]) == LETTER_M
    &&& lower(s[at + 1]) == LETTER_M
    &&& lower(s[at + 2]) == LETTER_L
    &&& s[at + 3] == AT
}

/// The semitones of a note's letter above the c of its octave.
pub open spec fn step_of(letter: u8) -> Option<Tick> {
    if letter == LETTER_C {
        Some(0)
    } else if letter == LETTER_D {
        Some(2)
    } else if letter == LETTER_E {
        Some(4)
    } else if letter == LETTER_F {
        Some(5)
    } else if letter == LETTER_G {
        Some(7)
    } else if letter == LETTER_A {
        Some(9)
    } else if letter == LETTER_B {
        Some(11)
    } else {
        None
    }
}

/// A number that a command cannot do without.
pub open spec fn required_at(s: Seq<u8>, at: int, command: u8) -> Result<Tick, MmlError> {
    match number_at(s, at) {
        Err(e) => Err(e),
        Ok(None) => Err(MmlError::MissingNumber { command, byte: at as usize }),
        Ok(Some(n)) => Ok(n),
    }
}

/// The command at a position and the position behind it.
pub open spec fn lex(s: Seq<u8>, at: int) -> Result<(Command, int), MmlError> {
    let c = lower(s[at]);
    let p = at + 1;
    if c == LETTER_T || c == LETTER_V || c == LETTER_O || c == LETTER_L || c == LETTER_N {
        match required_at(s, p, c) {
            Err(e) => Err(e),
            Ok(n) => {
                let q = digit_end(s, p);
                if c == LETTER_T {
                    Ok((Command::Tempo(n), q))
                } else if c == LETTER_V {
                    Ok((Command::Volume(n), q))
                } else if c == LETTER_O {
                    Ok((Command::Octave(n), q))
                } else if c == LETTER_N {
                    Ok((Command::Absolute(n), q))
                } else {
                    let r = dot_end(s, q);
                    Ok((Command::Length(n, (r - q) as usize), r))
                }
            },
        }
    } else if c == GREATER {
        Ok((Command::Up, p))
    } else if c == LESS {
        Ok((Command::Down, p))
    } else if c == AMPERSAND {
        Ok((Command::Tie, p))
    } else if c == LETTER_R || step_of(c) is Some {
        let q = if c == LETTER_R {
            p
        } else {
            sign_end(s, p)
        };
        match number_at(s, q) {
            Err(e) => Err(e),
            Ok(length) => {
                let r = digit_end(s, q);
                let end = dot_end(s, r);
                let dots = (end - r) as usize;
                if c == LETTER_R {
                    Ok((Command::Rest(length, dots), end))
                } else {
                    Ok(
                        (
                            Command::Note(step_of(c)->Some_0, sign_sum(s, p) as i128, length, dots),
                            end,
                        ),
                    )
                }
            },
        }
    } else {
        Ok((Command::Other, p))
    }
}

/// The ticks of a note or a rest: its own length and dots, each falling back on the setting.
pub open spec fn ticks_of(r: Reading, length: Option<Tick>, dots: usize) -> Result<Tick, MmlError> {
    let divisor = match length {
        Some(n) => n,
        None => r.length,
    };
    let count = if length is Some || dots > 0 {
        dots
    } else {
        r.dots
    };
    duration_of(divisor as int, count as nat)
}

/// The pitch of a letter with accidentals in an octave.
pub open spec fn pitch_of(octave: int, step: int, accidental: int) -> Option<int> {
    let base = (octave + 1) * 12;
    if fits(octave + 1) && fits(base) && fits(base + step) && fits(base + step + accidental) {
        Some(base + step + accidental)
    } else {
        None
    }
}

/// A note of some pitch and length, or a rest where there is no pitch.
pub open spec fn sound(r: Reading, pitch: Option<int>, ticks: int, src: (usize, usize)) -> Result<
    Reading,
    MmlError,
> {
    let end = r.time + ticks;
    if !fits(end) {
        Err(MmlError::ScoreTooLong)
    } else {
        match pitch {
            None => Ok(Reading { time: end as Tick, held: false, tie: false, ..r }),
            Some(p) => if !(i32::MIN <= p <= i32::MAX) {
                Err(MmlError::PitchTooLarge)
            } else if r.tie && r.held && r.notes.last().pitch == p {
                let longer = Note { off: end as Tick, ..r.notes.last() };
                Ok(
                    Reading {
                        time: end as Tick,
                        tie: false,
                        notes: r.notes.update(r.notes.len() - 1, longer),
                        ..r
                    },
                )
            } else {
                let note = Note {
                    on: r.time,
                    off: end as Tick,
                    pitch: p as i32,
                    vel: r.volume,
                    src,
                };
                Ok(
                    Reading {
                        time: end as Tick,
                        held: true,
                        tie: false,
                        notes: r.notes.push(note),
                        ..r
                    },
                )
            },
        }
    }
}

/// What a command does.
pub open spec fn perform(r: Reading, command: Command, src: (usize, usize)) -> Result<
    Reading,
    MmlError,
> {
    match command {
        Command::Tempo(n) => if n <= 0 {
            Err(MmlError::TempoNotPositive { tick: r.time })
        } else if n > i32::MAX {
            Err(MmlError::TempoTooLarge)
        } else {
            Ok(Reading { tempos: r.tempos.push((r.time, n as i32)), ..r })
        },
        Command::Volume(n) => if n > i32::MAX {
            Err(MmlError::VolumeTooLarge)
        } else {
            Ok(Reading { volume: n as i32, ..r })
        },
        Command::Octave(n) => Ok(Reading { octave: n, ..r }),
        Command::Length(n, dots) => match duration_of(n as int, dots as nat) {
            Err(e) => Err(e),
            Ok(_) => Ok(Reading { length: n, dots, ..r }),
        },
        Command::Up => if fits(r.octave + 1) {
            Ok(Reading { octave: (r.octave + 1) as Tick, ..r })
        } else {
            Err(MmlError::OctaveOverflow)
        },
        Command::Down => if fits(r.octave - 1) {
            Ok(Reading { octave: (r.octave - 1) as Tick, ..r })
        } else {
            Err(MmlError::OctaveOverflow)
        },
        Command::Tie => Ok(Reading { tie: true, ..r }),
        Command::Absolute(n) => if !fits(n + 12) {
            Err(MmlError::AbsolutePitchOverflow)
        } else {
            match duration_of(r.length as int, r.dots as nat) {
                Err(e) => Err(e),
                Ok(ticks) => sound(r, Some(n + 12), ticks as int, src),
            }
        },
        Command::Rest(length, dots) => match ticks_of(r, length, dots) {
            Err(e) => Err(e),
            Ok(ticks) => sound(r, None, ticks as int, src),
        },
        Command::Note(step, accidental, length, dots) => match ticks_of(r, length, dots) {
            Err(e) => Err(e),
            Ok(ticks) => match pitch_of(r.octave as int, step as int, accidental as int) {
                None => Err(MmlError::PitchOverflow),
                Some(pitch) => sound(r, Some(pitch), ticks as int, src),
            },
        },
        Command::Other => Ok(r),
    }
}

pub proof fn lemma_runs_advance(s: Seq<u8>, at: int)
    ensures
        at <= digit_end(s, at),
        at <= dot_end(s, at),
        at <= sign_end(s, at),
        0 <= at <= s.len() ==> digit_end(s, at) <= s.len() && dot_end(s, at) <= s.len()
            && sign_end(s, at) <= s.len(),
        0 <= at <= s.len() ==> -(sign_end(s, at) - at) <= sign_sum(s, at) <= sign_end(s, at) - at,
    decreases s.len() - at,
{
    if 0 <= at < s.len() {
        lemma_runs_advance(s, at + 1);
    }
}

pub proof fn lemma_lex_advances(s: Seq<u8>, at: int)
    requires
        0 <= at < s.len(),
    ensures
        lex(s, at) is Ok ==> at < lex(s, at)->Ok_0.1 <= s.len(),
{
    let p = at + 1;
    lemma_runs_advance(s, p);
    lemma_runs_advance(s, sign_end(s, p));
    lemma_runs_advance(s, digit_end(s, p));
    lemma_runs_advance(s, digit_end(s, sign_end(s, p)));
}

/// Reading on from a position: a semicolon ends the part, and opening marks are passed over.
pub open spec fn read_from(s: Seq<u8>, at: int, r: Reading, src: (usize, usize)) -> Result<
    Reading,
    MmlError,
>
    decreases s.len() - at,
{
    if at < 0 || at >= s.len() || s[at] == SEMICOLON {
        Ok(r)
    } else if header_at(s, at) {
        read_from(s, at + 4, r, src)
    } else {
        proof {
            lemma_lex_advances(s, at);
        }
        match lex(s, at) {
            Err(e) => Err(e),
            Ok((command, next)) => match perform(r, command, src) {
                Err(e) => Err(e),
                Ok(r2) => read_from(s, next, r2, src),
            },
        }
    }
}

/// What the text of a part says.
pub open spec fn read_part(s: Seq<u8>, src: (usize, usize)) -> Result<Reading, MmlError> {
    read_from(s, 0, initial(), src)
}

pub(crate) fn duration(length: Tick, dots: usize) -> (r: Result<Tick, MmlError>)
    ensures
        r == duration_of(length as int, dots as nat),
{
    if length < 0 {
        return Err(MmlError::NegativeLength { length });
    }
    let base: Tick = if length == 0 {
        WHOLE
    } else {
        WHOLE / length
    };
    proof {
        if length > 0 {
            assert(0 <= 384int / (length as int) <= 384) by (nonlinear_arith)
                requires
                    length > 0,
            ;
        }
    }
    if base == 0 {
        return Err(MmlError::ZeroDuration { length });
    }
    proof {
        lemma_dotted(base as int, dots as nat);
    }
    if dots == 0 {
        return Ok(base);
    }
    let remainder: Tick = if dots >= 10 {
        1
    } else {
        let mut denominator: Tick = 1;
        let mut i: usize = 0;
        proof {
            vstd::arithmetic::power2::lemma2_to64();
        }
        while i < dots
            invariant
                i <= dots < 10,
                denominator == pow2(i as nat),
                1 <= denominator <= 512,
            decreases dots - i,
        {
            proof {
                vstd::arithmetic::power2::lemma_pow2_unfold((i + 1) as nat);
                vstd::arithmetic::power2::lemma2_to64();
                if i + 1 < 9 {
                    vstd::arithmetic::power2::lemma_pow2_strictly_increases((i + 1) as nat, 9);
                }
            }
            denominator = denominator * 2;
            i += 1;
        }
        (base + denominator - 1) / denominator
    };
    Ok(base * 2 - remainder)
}

fn number(bytes: &[u8], at: usize) -> (r: Result<(Option<Tick>, usize), MmlError>)
    requires
        at <= bytes.len(),
    ensures
        match r {
            Ok((value, end)) => number_at(bytes@, at as int) == Ok::<_, MmlError>(value)
                && end == digit_end(bytes@, at as int),
            Err(e) => number_at(bytes@, at as int) == Err::<Option<Tick>, _>(e),
        },
{
    let mut value: Tick = 0;
    let mut end: usize = at;
    proof {
        lemma_runs_advance(bytes@, at as int);
        assert(bytes@.subrange(at as int, at as int) =~= Seq::<u8>::empty());
    }
    while end < bytes.len() && bytes[end] >= 48 && bytes[end] <= 57
        invariant
            at <= end <= bytes.len(),
            digit_end(bytes@, end as int) == digit_end(bytes@, at as int),
            0 <= value,
            value == digits_value(bytes@.subrange(at as int, end as int)),
        decreases bytes.len() - end,
    {
        let digit: u8 = bytes[end] - 48;
        proof {
            lemma_runs_advance(bytes@, end as int + 1);
            let wider = bytes@.subrange(at as int, end as int + 1);
            assert(wider.drop_last() =~= bytes@.subrange(at as int, end as int));
            lemma_prefix_value(bytes@, at as int, end as int + 1);
        }
        if value > 922337203685477580 || (value == 922337203685477580 && digit > 7) {
            return Err(MmlError::NumberTooLarge { byte: at + 1 });
        }
        value = value * 10 + digit as Tick;
        end += 1;
    }
    if end == at {
        Ok((None, end))
    } else {
        Ok((Some(value), end))
    }
}

proof fn lemma_prefix_value(s: Seq<u8>, at: int, end: int)
    requires
        0 <= at <= end <= digit_end(s, at),
        digit_end(s, at) <= s.len(),
        digit_end(s, end) == digit_end(s, at),
    ensures
        digits_value(s.subrange(at, end)) <= digits_value(s.subrange(at, digit_end(s, at))),
    decreases s.len() - end,
{
    lemma_runs_advance(s, end);
    if end < digit_end(s, at) {
        let wider = s.subrange(at, end + 1);
        assert(wider.drop_last() =~= s.subrange(at, end));
        assert(is_digit(s[end]));
        lemma_runs_advance(s, end + 1);
        lemma_prefix_value(s, at, end + 1);
    }
}

fn required_number(bytes: &[u8], at: usize, command: u8) -> (r: Result<(Tick, usize), MmlError>)
    requires
        at <= bytes.len(),
    ensures
        match r {
            Ok((value, end)) => required_at(bytes@, at as int, command) == Ok::<_, MmlError>(value)
                && end == digit_end(bytes@, at as int),
            Err(e) => required_at(bytes@, at as int, command) == Err::<Tick, _>(e),
        },
{
    match number(bytes, at) {
        Err(e) => Err(e),
        Ok((None, _)) => Err(MmlError::MissingNumber { command, byte: at }),
        Ok((Some(n), end)) => Ok((n, end)),
    }
}

fn dots(bytes: &[u8], at: usize) -> (end: usize)
    requires
        at <= bytes.len(),
    ensures
        end == dot_end(bytes@, at as int),
        at <= end <= bytes.len(),
{
    let mut end: usize = at;
    while end < bytes.len() && bytes[end] == DOT
        invariant
            at <= end <= bytes.len(),
            dot_end(bytes@, end as int) == dot_end(bytes@, at as int),
        decreases bytes.len() - end,
    {
        end += 1;
    }
    end
}

fn lowercase(b: u8) -> (r: u8)
    ensures
        r == lower(b),
{
    if b >= 65 && b <= 90 {
        b + 32
    } else {
        b
    }
}

fn step(letter: u8) -> (r: Option<Tick>)
    ensures
        r == step_of(letter),
{
    if letter == LETTER_C {
        Some(0)
    } else if letter == LETTER_D {
        Some(2)
    } else if letter == LETTER_E {
        Some(4)
    } else if letter == LETTER_F {
        Some(5)
    } else if letter == LETTER_G {
        Some(7)
    } else if letter == LETTER_A {
        Some(9)
    } else if letter == LETTER_B {
        Some(11)
    } else {
        None
    }
}

fn has_header(bytes: &[u8], at: usize) -> (r: bool)
    requires
        at <= bytes.len(),
    ensures
        r == header_at(bytes@, at as int),
{
    bytes.len() - at >= 4 && lowercase(bytes[at]) == LETTER_M && lowercase(bytes[at + 1]) == LETTER_M
        && lowercase(bytes[at + 2]) == LETTER_L && bytes[at + 3] == AT
}

/// Reads the command at a position.
fn next_command(bytes: &[u8], at: usize) -> (r: Result<(Command, usize), MmlError>)
    requires
        at < bytes.len(),
    ensures
        match r {
            Ok((command, end)) => lex(bytes@, at as int) == Ok::<(Command, int), MmlError>(
                (command, end as int),
            ) && at < end <= bytes.len(),
            Err(e) => lex(bytes@, at as int) == Err::<(Command, int), _>(e),
        },
{
    proof {
        lemma_lex_advances(bytes@, at as int);
    }
    let c = lowercase(bytes[at]);
    let p: usize = at + 1;
    if c == LETTER_T || c == LETTER_V || c == LETTER_O || c == LETTER_L || c == LETTER_N {
        let (n, q) = match required_number(bytes, p, c) {
            Err(e) => {
                return Err(e);
            },
            Ok(found) => found,
        };
        if c == LETTER_T {
            Ok((Command::Tempo(n), q))
        } else if c == LETTER_V {
            Ok((Command::Volume(n), q))
        } else if c == LETTER_O {
            Ok((Command::Octave(n), q))
        } else if c == LETTER_N {
            Ok((Command::Absolute(n), q))
        } else {
            proof {
                lemma_runs_advance(bytes@, p as int);
            }
            let r = dots(bytes, q);
            Ok((Command::Length(n, r - q), r))
        }
    } else if c == GREATER {
        Ok((Command::Up, p))
    } else if c == LESS {
        Ok((Command::Down, p))
    } else if c == AMPERSAND {
        Ok((Command::Tie, p))
    } else {
        let letter = step(c);
        if c != LETTER_R && letter.is_none() {
            return Ok((Command::Other, p));
        }
        let mut q: usize = p;
        let mut accidental: i128 = 0;
        if c != LETTER_R {
            while q < bytes.len() && (bytes[q] == PLUS || bytes[q] == SHARP || bytes[q] == MINUS)
                invariant
                    p <= q <= bytes.len(),
                    sign_end(bytes@, q as int) == sign_end(bytes@, p as int),
                    accidental + sign_sum(bytes@, q as int) == sign_sum(bytes@, p as int),
                    -(q - p) <= accidental <= q - p,
                decreases bytes.len() - q,
            {
                if bytes[q] == MINUS {
                    accidental = accidental - 1;
                } else {
                    accidental = accidental + 1;
                }
                q += 1;
            }
        }
        let (length, r) = match number(bytes, q) {
            Err(e) => {
                return Err(e);
            },
            Ok(found) => found,
        };
        proof {
            lemma_runs_advance(bytes@, q as int);
        }
        let end = dots(bytes, r);
        match letter {
            None => Ok((Command::Rest(length, end - r), end)),
            Some(s) => Ok((Command::Note(s, accidental, length, end - r), end)),
        }
    }
}

/// What has been read of a part, and the settings under which the next command stands.
struct Reader {
    octave: Tick,
    length: Tick,
    dots: usize,
    volume: i32,
    time: Tick,
    notes: Vec<Note>,
    tempos: Vec<Tempo>,
    held: bool,
    tie: bool,
}

impl View for Reader {
    type V = Reading;

    closed spec fn view(&self) -> Reading {
        Reading {
            octave: self.octave,
            length: self.length,
            dots: self.dots,
            volume: self.volume,
            time: self.time,
            notes: self.notes@,
            tempos: self.tempos@,
            held: self.held,
            tie: self.tie,
        }
    }
}

impl Reader {
    spec fn well_formed(&self) -> bool {
        self.held ==> self.notes.len() > 0
    }

    fn sound(&mut self, pitch: Option<i128>, ticks: Tick, src: (usize, usize)) -> (r: Result<
        (),
        MmlError,
    >)
        requires
            old(self).well_formed(),
        ensures
            final(self).well_formed(),
            match r {
                Ok(_) => sound(
                    old(self)@,
                    match pitch {
                        Some(p) => Some(p as int),
                        None => None,
                    },
                    ticks as int,
                    src,
                ) == Ok::<_, MmlError>(final(self)@),
                Err(e) => sound(
                    old(self)@,
                    match pitch {
                        Some(p) => Some(p as int),
                        None => None,
                    },
                    ticks as int,
                    src,
                ) == Err::<Reading, _>(e),
            },
    {
        let end: Tick = match self.time.checked_add(ticks) {
            None => {
                return Err(MmlError::ScoreTooLong);
            },
            Some(end) => end,
        };
        match pitch {
            None => {
                self.held = false;
            },
            Some(p) => {
                if p < -2147483648 || p > 2147483647 {
                    return Err(MmlError::PitchTooLarge);
                }
                let p: i32 = p as i32;
                let last: usize = self.notes.len();
                if self.tie && self.held && self.notes[last - 1].pitch == p {
                    let mut longer = self.notes[last - 1];
                    longer.off = end;
                    self.notes.set(last - 1, longer);
                } else {
                    let note = Note { on: self.time, off: end, pitch: p, vel: self.volume, src };
                    self.notes.push(note);
                    self.held = true;
                }
            },
        }
        self.tie = false;
        self.time = end;
        Ok(())
    }

    fn ticks(&self, length: Option<Tick>, dots: usize) -> (r: Result<Tick, MmlError>)
        ensures
            r == ticks_of(self@, length, dots),
    {
        match length {
            Some(n) => duration(n, dots),
            None => if dots > 0 {
                duration(self.length, dots)
            } else {
                duration(self.length, self.dots)
            },
        }
    }

    /// Carries out a command.
    fn perform(&mut self, command: Command, src: (usize, usize)) -> (r: Result<(), MmlError>)
        requires
            old(self).well_formed(),
            command matches Command::Volume(n) ==> n >= 0,
            command matches Command::Note(step, _, _, _) ==> 0 <= step <= 11,
        ensures
            final(self).well_formed(),
            match r {
                Ok(_) => perform(old(self)@, command, src) == Ok::<_, MmlError>(final(self)@),
                Err(e) => perform(old(self)@, command, src) == Err::<Reading, _>(e),
            },
    {
        match command {
            Command::Tempo(n) => {
                if n <= 0 {
                    return Err(MmlError::TempoNotPositive { tick: self.time });
                }
                if n > 2147483647 {
                    return Err(MmlError::TempoTooLarge);
                }
                self.tempos.push((self.time, n as i32));
                Ok(())
            },
            Command::Volume(n) => {
                if n > 2147483647 {
                    return Err(MmlError::VolumeTooLarge);
                }
                self.volume = n as i32;
                Ok(())
            },
            Command::Octave(n) => {
                self.octave = n;
                Ok(())
            },
            Command::Length(n, count) => match duration(n, count) {
                Err(e) => Err(e),
                Ok(_) => {
                    self.length = n;
                    self.dots = count;
                    Ok(())
                },
            },
            Command::Up => match self.octave.checked_add(1) {
                None => Err(MmlError::OctaveOverflow),
                Some(octave) => {
                    self.octave = octave;
                    Ok(())
                },
            },
            Command::Down => match self.octave.checked_sub(1) {
                None => Err(MmlError::OctaveOverflow),
                Some(octave) => {
                    self.octave = octave;
                    Ok(())
                },
            },
            Command::Tie => {
                self.tie = true;
                Ok(())
            },
            Command::Absolute(n) => match n.checked_add(12) {
                None => Err(MmlError::AbsolutePitchOverflow),
                Some(pitch) => match duration(self.length, self.dots) {
                    Err(e) => Err(e),
                    Ok(ticks) => self.sound(Some(pitch as i128), ticks, src),
                },
            },
            Command::Rest(length, count) => match self.ticks(length, count) {
                Err(e) => Err(e),
                Ok(ticks) => self.sound(None, ticks, src),
            },
            Command::Note(step, accidental, length, count) => match self.ticks(length, count) {
                Err(e) => Err(e),
                Ok(ticks) => {
                    let base: i128 = (self.octave as i128 + 1) * 12;
                    if self.octave == i64::MAX || base < i64::MIN as i128 || base
                        > i64::MAX as i128 || base + step as i128 > i64::MAX as i128
                        || accidental > i64::MAX as i128 - (base + step as i128) || accidental
                        < i64::MIN as i128 - (base + step as i128) {
                        return Err(MmlError::PitchOverflow);
                    }
                    let pitch: i128 = base + step as i128 + accidental;
                    self.sound(Some(pitch), ticks, src)
                },
            },
            Command::Other => Ok(()),
        }
    }
}

proof fn lemma_lex_values(s: Seq<u8>, at: int)
    requires
        0 <= at < s.len(),
        lex(s, at) is Ok,
    ensures
        lex(s, at)->Ok_0.0 matches Command::Volume(n) ==> n >= 0,
        lex(s, at)->Ok_0.0 matches Command::Note(step, _, _, _) ==> 0 <= step <= 11,
{
}

/// Reads the notes and the tempos of a part, and the tick at which it ends.
pub fn parse_part(s: &str, src: (usize, usize)) -> (r: Result<
    (Vec<Note>, Vec<Tempo>, Tick),
    MmlError,
>)
    ensures
        match r {
            Ok((notes, tempos, time)) => read_part(encode_utf8(s@), src) matches Ok(part)
                && notes@ == part.notes && tempos@ == part.tempos && time == part.time,
            Err(e) => read_part(encode_utf8(s@), src) == Err::<Reading, _>(e),
        },
{
    let bytes = s.as_bytes();
    let mut at: usize = 0;
    let mut reader = Reader {
        octave: 4,
        length: 4,
        dots: 0,
        volume: 8,
        time: 0,
        notes: Vec::new(),
        tempos: Vec::new(),
        held: false,
        tie: false,
    };
    proof {
        assert(reader@ =~= initial());
    }
    while at < bytes.len() && bytes[at] != SEMICOLON
        invariant
            at <= bytes.len(),
            bytes@ == encode_utf8(s@),
            reader.well_formed(),
            read_from(bytes@, at as int, reader@, src) == read_part(bytes@, src),
        decreases bytes.len() - at,
    {
        if has_header(bytes, at) {
            at += 4;
        } else {
            let (command, next) = match next_command(bytes, at) {
                Err(e) => {
                    return Err(e);
                },
                Ok(found) => found,
            };
            proof {
                lemma_lex_values(bytes@, at as int);
            }
            match reader.perform(command, src) {
                Err(e) => {
                    return Err(e);
                },
                Ok(_) => {},
            }
            at = next;
        }
    }
    Ok((reader.notes, reader.tempos, reader.time))
}

} // verus!
