//! Writing the notes and tempos of one part as MML.
use crate::ascii::{
    AMPERSAND, DOT, GREATER, LESS, LETTER_A, LETTER_B, LETTER_C, LETTER_D, LETTER_E, LETTER_F,
    LETTER_G, LETTER_L, LETTER_O, LETTER_R, LETTER_T, LETTER_V, MINUS, PLUS,
};
use crate::lengths::{atom_of, is_atom, lemma_atom_of, lemma_split, split_of};
use crate::lengths::{LengthTable, LONGEST};
use crate::mml::Command;
use crate::order::{lemma_stable_sort, sorted_by};
use crate::score::{by_onset, by_tick, sort_notes, sort_tempos, tempo_key};
use crate::score::{Note, Tempo, Tick};
use crate::text::{all_ascii, ascii_chars, ascii_string, decimal, lemma_decimal_value};
use crate::text::push_decimal;
use vstd::prelude::*;

verus! {

/// Why notes and tempos cannot be written as one part.
#[derive(Clone, Copy, Debug, PartialEq, Eq, Structural)]
pub enum EmitError {
    NegativeTotal { total: Tick },
    InvalidInterval { on: Tick, off: Tick },
    Overlap { tick: Tick },
    NegativeVolume { tick: Tick },
    Duration { ticks: Tick },
    InvalidTempo { value: i32, tick: Tick },
    Rest { tick: Tick, ticks: Tick },
    Pitch { pitch: i32, tick: Tick },
    Segment { pitch: i32, tick: Tick, ticks: Tick },
}

/// The letter of a note that lies some semitones above the c of its octave.
pub open spec fn letter_of(step: Tick) -> u8 {
    if step == 0 {
        LETTER_C
    } else if step == 2 {
        LETTER_D
    } else if step == 4 {
        LETTER_E
    } else if step == 5 {
        LETTER_F
    } else if step == 7 {
        LETTER_G
    } else if step == 9 {
        LETTER_A
    } else {
        LETTER_B
    }
}

/// The text of at most one accidental.
pub open spec fn sign_text(accidental: i128) -> Seq<u8> {
    if accidental > 0 {
        seq![PLUS]
    } else if accidental < 0 {
        seq![MINUS]
    } else {
        Seq::empty()
    }
}

/// The text of a length that may be left out.
pub open spec fn own_length(length: Option<Tick>, dots: usize) -> Seq<u8> {
    (match length {
        Some(n) => decimal(n as nat),
        None => Seq::empty(),
    }) + Seq::new(dots as nat, |i: int| DOT)
}

/// How a command is written.
pub open spec fn text_of(command: Command) -> Seq<u8> {
    match command {
        Command::Tempo(n) => seq![LETTER_T] + decimal(n as nat),
        Command::Volume(n) => seq![LETTER_V] + decimal(n as nat),
        Command::Octave(n) => seq![LETTER_O] + decimal(n as nat),
        Command::Length(n, dots) => seq![LETTER_L] + own_length(Some(n), dots),
        Command::Up => seq![GREATER],
        Command::Down => seq![LESS],
        Command::Tie => seq![AMPERSAND],
        Command::Rest(length, dots) => seq![LETTER_R] + own_length(length, dots),
        Command::Note(step, accidental, length, dots) => seq![letter_of(step)] + sign_text(
            accidental,
        ) + own_length(length, dots),
        _ => Seq::empty(),
    }
}

/// How commands are written one behind the other.
pub open spec fn texts(commands: Seq<Command>) -> Seq<u8>
    decreases commands.len(),
{
    if commands.len() == 0 {
        Seq::empty()
    } else {
        texts(commands.drop_last()) + text_of(commands.last())
    }
}

/// The commands that have been written, and the settings that they leave.
#[verifier::ext_equal]
pub struct Written {
    pub commands: Seq<Command>,
    pub octave: i32,
    pub volume: i32,
    pub length: Tick,
    pub dots: usize,
    pub time: Tick,
}

/// What stands written before the first command.
pub open spec fn blank() -> Written {
    Written { commands: Seq::empty(), octave: 4, volume: 8, length: 4, dots: 0, time: 0 }
}

pub open spec fn put(w: Written, command: Command) -> Written {
    Written { commands: w.commands.push(command), ..w }
}

/// How often a duration occurs among others.
pub open spec fn occurrences(s: Seq<Tick>, ticks: int) -> nat
    decreases s.len(),
{
    if s.len() == 0 {
        0
    } else {
        occurrences(s.drop_last(), ticks) + (if s.last() == ticks {
            1nat
        } else {
            0nat
        })
    }
}

/// How often an atom occurs in the durations of notes.
pub open spec fn uses(notes: Seq<Note>, ticks: int) -> nat
    decreases notes.len(),
{
    if notes.len() == 0 {
        0
    } else {
        let last = notes.last();
        uses(notes.drop_last(), ticks) + occurrences(split_of(last.off - last.on)->Some_0, ticks)
    }
}

/// Whether an atom occurs so often that making it the default pays.
pub open spec fn frequent(notes: Seq<Note>, ticks: int) -> bool {
    uses(notes, ticks) >= 3
}

/// The length that goes with a note or rest of some ticks: none where it is the default, or
/// where it is made the default first because it is frequent.
pub open spec fn with_length(w: Written, ticks: int, notes: Seq<Note>, may_default: bool) -> (
    Written,
    Option<Tick>,
    usize,
) {
    let atom = atom_of(ticks);
    if atom.length == w.length && atom.dots == w.dots {
        (w, None, 0usize)
    } else if may_default && frequent(notes, ticks) {
        (
            Written {
                length: atom.length,
                dots: atom.dots,
                ..put(w, Command::Length(atom.length, atom.dots))
            },
            None,
            0usize,
        )
    } else {
        (w, Some(atom.length), atom.dots)
    }
}

/// One rest for each atom.
pub open spec fn with_rests(w: Written, atoms: Seq<Tick>, notes: Seq<Note>) -> Written
    decreases atoms.len(),
{
    if atoms.len() == 0 {
        w
    } else {
        let before = with_rests(w, atoms.drop_last(), notes);
        let (set, length, dots) = with_length(before, atoms.last() as int, notes, true);
        put(set, Command::Rest(length, dots))
    }
}

/// A silence of some ticks.
pub open spec fn with_rest(w: Written, ticks: int, notes: Seq<Note>) -> Result<
    Written,
    EmitError,
> {
    match split_of(ticks) {
        None => Err(EmitError::Rest { tick: w.time, ticks: ticks as Tick }),
        Some(atoms) => Ok(
            Written { time: (w.time + ticks) as Tick, ..with_rests(w, atoms, notes) },
        ),
    }
}

/// A way to write a pitch: an octave, a letter and an accidental.
#[derive(Clone, Copy, Debug, PartialEq, Eq, Structural)]
pub struct Spelling {
    pub octave: i32,
    pub step: Tick,
    pub accidental: i128,
}

/// A pitch as a letter that is sharp where it has to be.
pub open spec fn sharp_spelling(pitch: int) -> Spelling {
    let octave = (pitch / 12 - 1) as i32;
    let step = pitch % 12;
    if step == 1 || step == 3 || step == 6 || step == 8 || step == 10 {
        Spelling { octave, step: (step - 1) as Tick, accidental: 1 }
    } else {
        Spelling { octave, step: step as Tick, accidental: 0 }
    }
}

/// The other way to write c, b, f and e, by the letter next to them.
pub open spec fn other_spelling(pitch: int) -> Option<Spelling> {
    let octave = (pitch / 12 - 1) as i32;
    let step = pitch % 12;
    if step == 0 {
        Some(Spelling { octave: (octave - 1) as i32, step: 11, accidental: 1 })
    } else if step == 11 {
        Some(Spelling { octave: (octave + 1) as i32, step: 0, accidental: -1i128 as i128 })
    } else if step == 5 {
        Some(Spelling { octave, step: 4, accidental: 1 })
    } else if step == 4 {
        Some(Spelling { octave, step: 5, accidental: -1i128 as i128 })
    } else {
        None
    }
}

pub open spec fn distance(a: int, b: int) -> int {
    if a < b {
        b - a
    } else {
        a - b
    }
}

/// The bytes that a spelling takes when the octave stands at another one.
pub open spec fn spelling_cost(s: Spelling, octave: int) -> int {
    (if distance(s.octave as int, octave) <= 2 {
        distance(s.octave as int, octave)
    } else {
        2
    }) + (if s.accidental == 0 {
        1int
    } else {
        2int
    })
}

pub open spec fn in_octaves(s: Spelling) -> bool {
    0 <= s.octave <= 8
}

/// The spelling that takes the fewest bytes within the octaves from zero to eight; sharps
/// win a tie.
pub open spec fn spelling_of(pitch: int, octave: int) -> Option<Spelling> {
    let sharp = sharp_spelling(pitch);
    match other_spelling(pitch) {
        Some(other) => if in_octaves(other) && (!in_octaves(sharp) || spelling_cost(other, octave)
            < spelling_cost(sharp, octave)) {
            Some(other)
        } else if in_octaves(sharp) {
            Some(sharp)
        } else {
            None
        },
        None => if in_octaves(sharp) {
            Some(sharp)
        } else {
            None
        },
    }
}

/// The octave moved to another one.
pub open spec fn with_octave(w: Written, target: i32) -> Written {
    let moved = if target == w.octave + 1 {
        put(w, Command::Up)
    } else if target == w.octave + 2 {
        put(put(w, Command::Up), Command::Up)
    } else if target == w.octave - 1 {
        put(w, Command::Down)
    } else if target == w.octave - 2 {
        put(put(w, Command::Down), Command::Down)
    } else if target == w.octave {
        w
    } else {
        put(w, Command::Octave(target as Tick))
    };
    Written { octave: target, ..moved }
}

/// One note for each atom, each but the first of all tied to the one before it.
pub open spec fn with_atoms(
    w: Written,
    atoms: Seq<Tick>,
    spelling: Spelling,
    first: bool,
    notes: Seq<Note>,
) -> Written
    decreases atoms.len(),
{
    if atoms.len() == 0 {
        w
    } else {
        let before = with_atoms(w, atoms.drop_last(), spelling, first, notes);
        let begins = first && atoms.len() == 1;
        let (set, length, dots) = with_length(before, atoms.last() as int, notes, begins);
        let tied = if begins {
            set
        } else {
            put(set, Command::Tie)
        };
        put(tied, Command::Note(spelling.step, spelling.accidental, length, dots))
    }
}

/// The stretch of a note up to a tempo or to its end.
pub open spec fn with_stretch(
    w: Written,
    note: Note,
    from: int,
    to: int,
    spelling: Spelling,
    first: bool,
    notes: Seq<Note>,
) -> Result<Written, EmitError> {
    match split_of(to - from) {
        None => Err(
            EmitError::Segment {
                pitch: note.pitch,
                tick: from as Tick,
                ticks: (to - from) as Tick,
            },
        ),
        Some(atoms) => Ok(with_atoms(w, atoms, spelling, first, notes)),
    }
}

/// A note from some tick on, with the tempos that lie inside it from some index on.
pub open spec fn with_stretches(
    w: Written,
    note: Note,
    from: int,
    tempos: Seq<Tempo>,
    i: int,
    spelling: Spelling,
    first: bool,
    notes: Seq<Note>,
) -> Result<Written, EmitError>
    decreases tempos.len() - i,
{
    if i < 0 || i >= tempos.len() {
        with_stretch(w, note, from, note.off as int, spelling, first, notes)
    } else {
        let to = tempos[i].0 as int;
        match with_stretch(w, note, from, to, spelling, first, notes) {
            Err(e) => Err(e),
            Ok(stretch) => with_stretches(
                put(stretch, Command::Tempo(tempos[i].1 as Tick)),
                note,
                to,
                tempos,
                i + 1,
                spelling,
                first && to == from,
                notes,
            ),
        }
    }
}

/// A note with the tempos that lie inside it.
pub open spec fn with_note(w: Written, note: Note, tempos: Seq<Tempo>, notes: Seq<Note>) -> Result<
    Written,
    EmitError,
> {
    let louder = if note.vel != w.volume {
        Written { volume: note.vel, ..put(w, Command::Volume(note.vel as Tick)) }
    } else {
        w
    };
    match spelling_of(note.pitch as int, w.octave as int) {
        None => Err(EmitError::Pitch { pitch: note.pitch, tick: note.on }),
        Some(spelling) => match with_stretches(
            with_octave(louder, spelling.octave),
            note,
            note.on as int,
            tempos,
            0,
            spelling,
            true,
            notes,
        ) {
            Err(e) => Err(e),
            Ok(done) => Ok(Written { time: note.off, ..done }),
        },
    }
}

/// The first index, from a given one on, of a tempo at or after a tick.
pub open spec fn tempos_until(tempos: Seq<Tempo>, i: int, tick: int) -> int
    decreases tempos.len() - i,
{
    if 0 <= i < tempos.len() && tempos[i].0 < tick {
        tempos_until(tempos, i + 1, tick)
    } else {
        i
    }
}

/// A silence up to a tick, where that lies ahead.
pub open spec fn with_rest_until(w: Written, tick: int, notes: Seq<Note>) -> Result<
    Written,
    EmitError,
> {
    if tick > w.time {
        with_rest(w, tick - w.time, notes)
    } else {
        Ok(w)
    }
}

/// Tempos between two indices, each behind a silence up to its tick.
pub open spec fn with_tempos(
    w: Written,
    tempos: Seq<Tempo>,
    from: int,
    to: int,
    notes: Seq<Note>,
) -> Result<Written, EmitError>
    decreases to - from,
{
    if from >= to {
        Ok(w)
    } else {
        match with_rest_until(w, tempos[from].0 as int, notes) {
            Err(e) => Err(e),
            Ok(rested) => with_tempos(
                put(rested, Command::Tempo(tempos[from].1 as Tick)),
                tempos,
                from + 1,
                to,
                notes,
            ),
        }
    }
}

/// The notes from one index on and the tempos from another on.
pub open spec fn with_notes(
    w: Written,
    notes: Seq<Note>,
    i: int,
    tempos: Seq<Tempo>,
    j: int,
) -> Result<Written, EmitError>
    decreases notes.len() - i,
{
    if i < 0 || i >= notes.len() {
        with_tempos(w, tempos, j, tempos.len() as int, notes)
    } else {
        let note = notes[i];
        let begin = tempos_until(tempos, j, note.on + 1);
        let end = tempos_until(tempos, begin, note.off as int);
        match with_tempos(w, tempos, j, begin, notes) {
            Err(e) => Err(e),
            Ok(led) => match with_rest_until(led, note.on as int, notes) {
                Err(e) => Err(e),
                Ok(rested) => match with_note(rested, note, tempos.subrange(begin, end), notes) {
                    Err(e) => Err(e),
                    Ok(done) => with_notes(done, notes, i + 1, tempos, end),
                },
            },
        }
    }
}

/// What is wrong with a note that comes behind others that end at some tick.
pub open spec fn note_fault(note: Note, end: int) -> Option<EmitError> {
    if note.on < 0 || note.off <= note.on {
        Some(EmitError::InvalidInterval { on: note.on, off: note.off })
    } else if note.on < end {
        Some(EmitError::Overlap { tick: note.on })
    } else if note.vel < 0 {
        Some(EmitError::NegativeVolume { tick: note.on })
    } else if split_of(note.off - note.on) is None {
        Some(EmitError::Duration { ticks: (note.off - note.on) as Tick })
    } else {
        None
    }
}

/// What is wrong with the first faulty note from some index on.
pub open spec fn notes_fault(notes: Seq<Note>, i: int) -> Option<EmitError>
    decreases notes.len() - i,
{
    if i < 0 || i >= notes.len() {
        None
    } else {
        let end = if i == 0 {
            0
        } else {
            notes[i - 1].off as int
        };
        match note_fault(notes[i], end) {
            Some(e) => Some(e),
            None => notes_fault(notes, i + 1),
        }
    }
}

/// What is wrong with the first faulty tempo from some index on.
pub open spec fn tempos_fault(tempos: Seq<Tempo>, i: int) -> Option<EmitError>
    decreases tempos.len() - i,
{
    if i < 0 || i >= tempos.len() {
        None
    } else if tempos[i].0 < 0 || tempos[i].1 <= 0 {
        Some(EmitError::InvalidTempo { value: tempos[i].1, tick: tempos[i].0 })
    } else {
        tempos_fault(tempos, i + 1)
    }
}

/// The commands that write notes and tempos as one part. Silence behind the last of them is
/// not written.
pub open spec fn written_part(notes: Seq<Note>, tempos: Seq<Tempo>, total: int) -> Result<
    Written,
    EmitError,
> {
    let sorted = by_onset(notes);
    let ordered = by_tick(tempos);
    if total < 0 {
        Err(EmitError::NegativeTotal { total: total as Tick })
    } else if notes_fault(sorted, 0) is Some {
        Err(notes_fault(sorted, 0)->Some_0)
    } else if tempos_fault(ordered, 0) is Some {
        Err(tempos_fault(ordered, 0)->Some_0)
    } else {
        with_notes(blank(), sorted, 0, ordered, 0)
    }
}

/// The MML of notes and tempos as one part.
pub open spec fn part_text(notes: Seq<Note>, tempos: Seq<Tempo>, total: int) -> Result<
    Seq<u8>,
    EmitError,
> {
    match written_part(notes, tempos, total) {
        Ok(w) => Ok(texts(w.commands)),
        Err(e) => Err(e),
    }
}


/// Whether counts tell how often each atom occurs in the durations of notes, up to three.
spec fn counts_uses(counts: Seq<u8>, notes: Seq<Note>) -> bool {
    &&& counts.len() == LONGEST + 1
    &&& forall|t: int|
        0 <= t <= LONGEST ==> #[trigger] counts[t] == (if uses(notes, t) < 3 {
            uses(notes, t) as int
        } else {
            3
        })
}

/// The text that has been written and the settings that it leaves.
struct Writer {
    output: Vec<u8>,
    octave: i32,
    volume: i32,
    length: Tick,
    dots: usize,
    time: Tick,
}

proof fn lemma_put(commands: Seq<Command>, command: Command)
    ensures
        texts(commands.push(command)) == texts(commands) + text_of(command),
{
    assert(commands.push(command).drop_last() =~= commands);
}

impl Writer {
    /// Whether the text and the settings are those of commands that have been written.
    spec fn holds(&self, w: Written) -> bool {
        &&& self.output@ == texts(w.commands)
        &&& self.octave == w.octave
        &&& self.volume == w.volume
        &&& self.length == w.length
        &&& self.dots == w.dots
        &&& self.time == w.time
        &&& 0 <= w.octave <= 8
    }

    fn new() -> (writer: Self)
        ensures
            writer.holds(blank()),
    {
        Writer { output: Vec::new(), octave: 4, volume: 8, length: 4, dots: 0, time: 0 }
    }

    /// Writes a length and its dots.
    fn push_length(&mut self, length: Tick, dots: usize)
        requires
            length >= 0,
        ensures
            final(self).output@ == old(self).output@ + own_length(Some(length), dots),
            *final(self) == (Writer { output: final(self).output, ..*old(self) }),
    {
        push_decimal(&mut self.output, length as u128);
        let ghost base = self.output@;
        let mut i: usize = 0;
        while i < dots
            invariant
                i <= dots,
                self.output@ == base + Seq::new(i as nat, |k: int| DOT),
                *self == (Writer { output: self.output, ..*old(self) }),
            decreases dots - i,
        {
            self.output.push(DOT);
            i += 1;
            proof {
                assert(self.output@ =~= base + Seq::new(i as nat, |k: int| DOT));
            }
        }
        proof {
            assert(self.output@ =~= old(self).output@ + own_length(Some(length), dots));
        }
    }

    /// Chooses how the length of an atom is written.
    fn length_token(
        &mut self,
        ticks: Tick,
        table: &LengthTable,
        counts: &Vec<u8>,
        may_default: bool,
        Ghost(w): Ghost<Written>,
        Ghost(notes): Ghost<Seq<Note>>,
    ) -> (r: (Option<Tick>, usize))
        requires
            old(self).holds(w),
            table.well_formed(),
            counts_uses(counts@, notes),
            is_atom(ticks as int),
        ensures
            final(self).holds(with_length(w, ticks as int, notes, may_default).0),
            r.0 == with_length(w, ticks as int, notes, may_default).1,
            r.1 == with_length(w, ticks as int, notes, may_default).2,
            r.0 is Some ==> r.0->Some_0 >= 0,
            r.0 is None ==> r.1 == 0,
    {
        proof {
            lemma_atom_of(ticks as int);
        }
        let atom = table.atom(ticks);
        if atom.length == self.length && atom.dots == self.dots {
            (None, 0)
        } else if may_default && counts[ticks as usize] >= 3 {
            self.output.push(LETTER_L);
            self.push_length(atom.length, atom.dots);
            self.length = atom.length;
            self.dots = atom.dots;
            proof {
                lemma_put(w.commands, Command::Length(atom.length, atom.dots));
                assert(self.output@ =~= texts(w.commands) + text_of(
                    Command::Length(atom.length, atom.dots),
                ));
            }
            (None, 0)
        } else {
            (Some(atom.length), atom.dots)
        }
    }

    fn set_octave(&mut self, target: i32, Ghost(w): Ghost<Written>)
        requires
            old(self).holds(w),
            0 <= target <= 8,
        ensures
            final(self).holds(with_octave(w, target)),
    {
        proof {
            lemma_put(w.commands, Command::Up);
            lemma_put(w.commands.push(Command::Up), Command::Up);
            lemma_put(w.commands, Command::Down);
            lemma_put(w.commands.push(Command::Down), Command::Down);
            lemma_put(w.commands, Command::Octave(target as Tick));
        }
        let difference: i32 = target - self.octave;
        if difference >= -2 && difference <= 2 {
            let mut left: i32 = if difference < 0 {
                -difference
            } else {
                difference
            };
            let sign: u8 = if difference > 0 {
                GREATER
            } else {
                LESS
            };
            if left >= 1 {
                self.output.push(sign);
                if left == 2 {
                    self.output.push(sign);
                }
            }
        } else {
            self.output.push(LETTER_O);
            push_decimal(&mut self.output, target as u128);
        }
        self.octave = target;
        proof {
            assert(self.output@ =~= texts(with_octave(w, target).commands));
        }
    }

    fn tempo(&mut self, value: i32, Ghost(w): Ghost<Written>)
        requires
            old(self).holds(w),
            value >= 0,
        ensures
            final(self).holds(put(w, Command::Tempo(value as Tick))),
    {
        self.output.push(LETTER_T);
        push_decimal(&mut self.output, value as u128);
        proof {
            lemma_put(w.commands, Command::Tempo(value as Tick));
            assert(self.output@ =~= texts(w.commands) + text_of(Command::Tempo(value as Tick)));
        }
    }

    fn own_length(&mut self, length: Option<Tick>, dots: usize)
        requires
            length is Some ==> length->Some_0 >= 0,
            length is None ==> dots == 0,
        ensures
            final(self).output@ == old(self).output@ + own_length(length, dots),
            *final(self) == (Writer { output: final(self).output, ..*old(self) }),
    {
        match length {
            Some(n) => {
                self.push_length(n, dots);
            },
            None => {
                proof {
                    assert(self.output@ =~= old(self).output@ + own_length(length, dots));
                }
            },
        }
    }

    /// Writes a silence up to a tick, where that lies ahead.
    fn rest_until(
        &mut self,
        tick: Tick,
        table: &LengthTable,
        counts: &Vec<u8>,
        Ghost(w): Ghost<Written>,
        Ghost(notes): Ghost<Seq<Note>>,
    ) -> (r: Result<(), EmitError>)
        requires
            old(self).holds(w),
            table.well_formed(),
            counts_uses(counts@, notes),
            w.time >= 0,
        ensures
            match r {
                Ok(_) => with_rest_until(w, tick as int, notes) matches Ok(w2)
                    && final(self).holds(w2),
                Err(e) => with_rest_until(w, tick as int, notes) == Err::<Written, _>(e),
            },
    {
        if tick <= self.time {
            return Ok(());
        }
        let ticks: Tick = tick - self.time;
        let atoms = match table.split(ticks) {
            Err(_) => {
                return Err(EmitError::Rest { tick: self.time, ticks });
            },
            Ok(atoms) => atoms,
        };
        proof {
            lemma_split(ticks as int);
            assert(atoms@.take(0) =~= Seq::<Tick>::empty());
        }
        let mut i: usize = 0;
        while i < atoms.len()
            invariant
                i <= atoms.len(),
                table.well_formed(),
                counts_uses(counts@, notes),
                forall|k: int| 0 <= k < atoms.len() ==> is_atom((#[trigger] atoms[k]) as int),
                self.holds(with_rests(w, atoms@.take(i as int), notes)),
            decreases atoms.len() - i,
        {
            let ghost before = with_rests(w, atoms@.take(i as int), notes);
            let (length, dots) = self.length_token(
                atoms[i],
                table,
                counts,
                true,
                Ghost(before),
                Ghost(notes),
            );
            let ghost set = with_length(before, atoms[i as int] as int, notes, true).0;
            self.output.push(LETTER_R);
            self.own_length(length, dots);
            proof {
                lemma_put(set.commands, Command::Rest(length, dots));
                assert(self.output@ =~= texts(set.commands) + text_of(Command::Rest(length, dots)));
                assert(atoms@.take(i + 1).drop_last() =~= atoms@.take(i as int));
            }
            i += 1;
        }
        self.time = tick;
        proof {
            assert(atoms@.take(i as int) =~= atoms@);
            lemma_rests_keep(w, atoms@, notes);
        }
        Ok(())
    }

    fn letter(step: Tick) -> (letter: u8)
        ensures
            letter == letter_of(step),
    {
        if step == 0 {
            LETTER_C
        } else if step == 2 {
            LETTER_D
        } else if step == 4 {
            LETTER_E
        } else if step == 5 {
            LETTER_F
        } else if step == 7 {
            LETTER_G
        } else if step == 9 {
            LETTER_A
        } else {
            LETTER_B
        }
    }

    /// Writes the stretch of a note up to a tempo or to its end.
    #[verifier::rlimit(60)]
    fn stretch(
        &mut self,
        note: &Note,
        from: Tick,
        to: Tick,
        spelling: Spelling,
        first: bool,
        table: &LengthTable,
        counts: &Vec<u8>,
        Ghost(w): Ghost<Written>,
        Ghost(notes): Ghost<Seq<Note>>,
    ) -> (r: Result<(), EmitError>)
        requires
            old(self).holds(w),
            table.well_formed(),
            counts_uses(counts@, notes),
            0 <= from <= to,
        ensures
            match r {
                Ok(_) => with_stretch(
                    w,
                    *note,
                    from as int,
                    to as int,
                    spelling,
                    first,
                    notes,
                ) matches Ok(w2) && final(self).holds(w2),
                Err(e) => with_stretch(
                    w,
                    *note,
                    from as int,
                    to as int,
                    spelling,
                    first,
                    notes,
                ) == Err::<Written, _>(e),
            },
    {
        let atoms = match table.split(to - from) {
            Err(_) => {
                return Err(EmitError::Segment { pitch: note.pitch, tick: from, ticks: to - from });
            },
            Ok(atoms) => atoms,
        };
        proof {
            lemma_split(to - from);
            assert(atoms@.take(0) =~= Seq::<Tick>::empty());
        }
        let mut i: usize = 0;
        while i < atoms.len()
            invariant
                i <= atoms.len(),
                table.well_formed(),
                counts_uses(counts@, notes),
                forall|k: int| 0 <= k < atoms.len() ==> is_atom((#[trigger] atoms[k]) as int),
                self.holds(with_atoms(w, atoms@.take(i as int), spelling, first, notes)),
            decreases atoms.len() - i,
        {
            let ghost before = with_atoms(w, atoms@.take(i as int), spelling, first, notes);
            let begins: bool = first && i == 0;
            let (length, dots) = self.length_token(
                atoms[i],
                table,
                counts,
                begins,
                Ghost(before),
                Ghost(notes),
            );
            let ghost set = with_length(before, atoms[i as int] as int, notes, begins).0;
            let ghost tied = if begins {
                set
            } else {
                put(set, Command::Tie)
            };
            if !begins {
                self.output.push(AMPERSAND);
                proof {
                    lemma_put(set.commands, Command::Tie);
                }
            }
            let ghost command = Command::Note(spelling.step, spelling.accidental, length, dots);
            self.output.push(Self::letter(spelling.step));
            if spelling.accidental > 0 {
                self.output.push(PLUS);
            } else if spelling.accidental < 0 {
                self.output.push(MINUS);
            }
            self.own_length(length, dots);
            proof {
                lemma_put(tied.commands, command);
                assert(self.output@ =~= texts(tied.commands) + text_of(command));
                assert(atoms@.take(i + 1).drop_last() =~= atoms@.take(i as int));
            }
            i += 1;
        }
        proof {
            assert(atoms@.take(i as int) =~= atoms@);
        }
        Ok(())
    }

    /// Writes a note with the tempos that lie inside it.
    fn note(
        &mut self,
        note: &Note,
        tempos: &Vec<Tempo>,
        begin: usize,
        end: usize,
        table: &LengthTable,
        counts: &Vec<u8>,
        Ghost(w): Ghost<Written>,
        Ghost(notes): Ghost<Seq<Note>>,
    ) -> (r: Result<(), EmitError>)
        requires
            old(self).holds(w),
            table.well_formed(),
            counts_uses(counts@, notes),
            0 <= note.on < note.off,
            note.vel >= 0,
            begin <= end <= tempos.len(),
            forall|k: int| begin <= k < end ==> note.on < (#[trigger] tempos[k]).0 < note.off,
            forall|k: int| begin <= k < end ==> (#[trigger] tempos[k]).1 > 0,
            forall|k: int, l: int|
                begin <= k <= l < end ==> (#[trigger] tempos[k]).0 <= (#[trigger] tempos[l]).0,
        ensures
            match r {
                Ok(_) => with_note(
                    w,
                    *note,
                    tempos@.subrange(begin as int, end as int),
                    notes,
                ) matches Ok(w2) && final(self).holds(w2),
                Err(e) => with_note(
                    w,
                    *note,
                    tempos@.subrange(begin as int, end as int),
                    notes,
                ) == Err::<Written, _>(e),
            },
    {
        let ghost inside = tempos@.subrange(begin as int, end as int);
        let ghost mut now = w;
        if note.vel != self.volume {
            self.output.push(LETTER_V);
            push_decimal(&mut self.output, note.vel as u128);
            self.volume = note.vel;
            proof {
                let command = Command::Volume(note.vel as Tick);
                lemma_put(w.commands, command);
                assert(self.output@ =~= texts(w.commands) + text_of(command));
                now = Written { volume: note.vel, ..put(w, command) };
            }
        }
        let spelling = match spelling(note.pitch, self.octave) {
            None => {
                return Err(EmitError::Pitch { pitch: note.pitch, tick: note.on });
            },
            Some(spelling) => spelling,
        };
        self.set_octave(spelling.octave, Ghost(now));
        proof {
            now = with_octave(now, spelling.octave);
        }
        let mut first: bool = true;
        let mut start: Tick = note.on;
        let mut i: usize = begin;
        let ghost whole = with_stretches(
            now,
            *note,
            note.on as int,
            inside,
            0,
            spelling,
            true,
            notes,
        );
        while i < end
            invariant
                begin <= i <= end <= tempos.len(),
                inside == tempos@.subrange(begin as int, end as int),
                table.well_formed(),
                counts_uses(counts@, notes),
                0 <= start < note.off,
                i < end ==> start <= tempos[i as int].0,
                forall|k: int|
                    begin <= k < end ==> note.on < (#[trigger] tempos[k]).0 < note.off,
                forall|k: int| begin <= k < end ==> (#[trigger] tempos[k]).1 > 0,
                forall|k: int, l: int|
                    begin <= k <= l < end ==> (#[trigger] tempos[k]).0 <= (#[trigger] tempos[l]).0,
                self.holds(now),
                whole is Err ==> with_note(w, *note, inside, notes) == Err::<Written, _>(
                    whole->Err_0,
                ),
                whole == with_stretches(
                    now,
                    *note,
                    start as int,
                    inside,
                    i - begin,
                    spelling,
                    first,
                    notes,
                ),
            decreases end - i,
        {
            let (tick, value) = tempos[i];
            proof {
                assert(inside[i - begin] == tempos[i as int]);
            }
            match self.stretch(
                note,
                start,
                tick,
                spelling,
                first,
                table,
                counts,
                Ghost(now),
                Ghost(notes),
            ) {
                Err(e) => {
                    return Err(e);
                },
                Ok(_) => {},
            }
            proof {
                now = with_stretch(
                    now,
                    *note,
                    start as int,
                    tick as int,
                    spelling,
                    first,
                    notes,
                )->Ok_0;
            }
            self.tempo(value, Ghost(now));
            proof {
                now = put(now, Command::Tempo(value as Tick));
            }
            first = first && tick == start;
            start = tick;
            i += 1;
        }
        match self.stretch(
            note,
            start,
            note.off,
            spelling,
            first,
            table,
            counts,
            Ghost(now),
            Ghost(notes),
        ) {
            Err(e) => {
                return Err(e);
            },
            Ok(_) => {},
        }
        self.time = note.off;
        Ok(())
    }
}

proof fn lemma_rests_keep(w: Written, atoms: Seq<Tick>, notes: Seq<Note>)
    ensures
        with_rests(w, atoms, notes).time == w.time,
        with_rests(w, atoms, notes).octave == w.octave,
    decreases atoms.len(),
{
    if atoms.len() > 0 {
        lemma_rests_keep(w, atoms.drop_last(), notes);
    }
}

fn cost(s: Spelling, octave: i32) -> (c: i32)
    requires
        0 <= s.octave <= 8,
        0 <= octave <= 8,
    ensures
        c == spelling_cost(s, octave as int),
{
    let difference: i32 = if s.octave < octave {
        octave - s.octave
    } else {
        s.octave - octave
    };
    let shift: i32 = if difference <= 2 {
        difference
    } else {
        2
    };
    if s.accidental == 0 {
        shift + 1
    } else {
        shift + 2
    }
}

/// The spelling of a pitch that is shortest to write behind some octave.
fn spelling(pitch: i32, octave: i32) -> (r: Option<Spelling>)
    requires
        0 <= octave <= 8,
    ensures
        r == spelling_of(pitch as int, octave as int),
        r is Some ==> 0 <= r->Some_0.octave <= 8,
{
    if pitch < 0 || pitch > 1000 {
        return None;
    }
    let base: i32 = pitch / 12 - 1;
    let step: i32 = pitch % 12;
    let sharp = if step == 1 || step == 3 || step == 6 || step == 8 || step == 10 {
        Spelling { octave: base, step: (step - 1) as Tick, accidental: 1 }
    } else {
        Spelling { octave: base, step: step as Tick, accidental: 0 }
    };
    let other = if step == 0 {
        Some(Spelling { octave: base - 1, step: 11, accidental: 1 })
    } else if step == 11 {
        Some(Spelling { octave: base + 1, step: 0, accidental: -1 })
    } else if step == 5 {
        Some(Spelling { octave: base, step: 4, accidental: 1 })
    } else if step == 4 {
        Some(Spelling { octave: base, step: 5, accidental: -1 })
    } else {
        None
    };
    let sharp_fits: bool = 0 <= sharp.octave && sharp.octave <= 8;
    match other {
        Some(other) => {
            let other_fits: bool = 0 <= other.octave && other.octave <= 8;
            if other_fits && (!sharp_fits || cost(other, octave) < cost(sharp, octave)) {
                Some(other)
            } else if sharp_fits {
                Some(sharp)
            } else {
                None
            }
        },
        None => if sharp_fits {
            Some(sharp)
        } else {
            None
        },
    }
}

/// What holds of notes in which nothing is faulty.
pub open spec fn sound_notes(notes: Seq<Note>) -> bool {
    &&& forall|i: int|
        0 <= i < notes.len() ==> 0 <= (#[trigger] notes[i]).on < notes[i].off && notes[i].vel >= 0
            && notes[i].off - notes[i].on >= 6
    &&& forall|i: int, j: int|
        0 <= i < j < notes.len() ==> (#[trigger] notes[i]).off <= (#[trigger] notes[j]).on
}

pub proof fn lemma_no_note_fault(notes: Seq<Note>, i: int)
    requires
        0 <= i <= notes.len(),
        notes_fault(notes, i) is None,
        sound_notes(notes.take(i)),
    ensures
        sound_notes(notes),
    decreases notes.len() - i,
{
    if i < notes.len() {
        let end = if i == 0 {
            0
        } else {
            notes[i - 1].off as int
        };
        lemma_split(notes[i].off - notes[i].on);
        let longer = notes.take(i + 1);
        assert forall|k: int| 0 <= k < longer.len() implies 0 <= (#[trigger] longer[k]).on
            < longer[k].off && longer[k].vel >= 0 && longer[k].off - longer[k].on >= 6 by {
            if k < i {
                assert(longer[k] == notes.take(i)[k]);
            }
        }
        assert forall|k: int, l: int| 0 <= k < l < longer.len() implies (
        #[trigger] longer[k]).off <= (#[trigger] longer[l]).on by {
            assert(longer[k] == notes.take(i)[k]);
            if l < i {
                assert(longer[l] == notes.take(i)[l]);
            } else if k < i - 1 {
                assert(notes.take(i)[i - 1] == notes[i - 1]);
                assert(notes.take(i)[k].off <= notes.take(i)[i - 1].on);
            }
        }
        lemma_no_note_fault(notes, i + 1);
    } else {
        assert(notes.take(i) =~= notes);
    }
}

pub proof fn lemma_no_tempo_fault(tempos: Seq<Tempo>, i: int)
    requires
        0 <= i <= tempos.len(),
        tempos_fault(tempos, i) is None,
    ensures
        forall|k: int|
            i <= k < tempos.len() ==> (#[trigger] tempos[k]).0 >= 0 && tempos[k].1 > 0,
    decreases tempos.len() - i,
{
    if i < tempos.len() {
        lemma_no_tempo_fault(tempos, i + 1);
    }
}

pub proof fn lemma_tempos_until(tempos: Seq<Tempo>, i: int, tick: int)
    requires
        0 <= i <= tempos.len(),
    ensures
        i <= tempos_until(tempos, i, tick) <= tempos.len(),
        forall|k: int| i <= k < tempos_until(tempos, i, tick) ==> (#[trigger] tempos[k]).0 < tick,
        tempos_until(tempos, i, tick) < tempos.len() ==> tempos[tempos_until(
            tempos,
            i,
            tick,
        )].0 >= tick,
    decreases tempos.len() - i,
{
    if i < tempos.len() && tempos[i].0 < tick {
        lemma_tempos_until(tempos, i + 1, tick);
    }
}

/// Finds what is wrong with notes, and how often each atom occurs in their durations.
fn count_atoms(notes: &Vec<Note>, table: &LengthTable) -> (r: Result<Vec<u8>, EmitError>)
    requires
        table.well_formed(),
    ensures
        match r {
            Ok(counts) => notes_fault(notes@, 0) is None && counts_uses(counts@, notes@),
            Err(e) => notes_fault(notes@, 0) == Some(e),
        },
{
    let mut counts: Vec<u8> = Vec::new();
    let mut k: usize = 0;
    while k < 577
        invariant
            k <= 577,
            counts.len() == k,
            forall|t: int| 0 <= t < k ==> #[trigger] counts[t] == 0,
        decreases 577 - k,
    {
        counts.push(0);
        k += 1;
    }
    let mut end: Tick = 0;
    let mut i: usize = 0;
    proof {
        assert(notes@.take(0) =~= Seq::<Note>::empty());
    }
    while i < notes.len()
        invariant
            i <= notes.len(),
            table.well_formed(),
            end == (if i == 0 {
                0
            } else {
                notes[i - 1].off
            }),
            notes_fault(notes@, i as int) == notes_fault(notes@, 0),
            counts_uses(counts@, notes@.take(i as int)),
        decreases notes.len() - i,
    {
        let note = notes[i];
        if note.on < 0 || note.off <= note.on {
            return Err(EmitError::InvalidInterval { on: note.on, off: note.off });
        }
        if note.on < end {
            return Err(EmitError::Overlap { tick: note.on });
        }
        if note.vel < 0 {
            return Err(EmitError::NegativeVolume { tick: note.on });
        }
        let atoms = match table.split(note.duration()) {
            Err(_) => {
                return Err(EmitError::Duration { ticks: note.duration() });
            },
            Ok(atoms) => atoms,
        };
        proof {
            lemma_split(note.off - note.on);
            assert(notes@.take(i + 1).drop_last() =~= notes@.take(i as int));
            assert(atoms@.take(0) =~= Seq::<Tick>::empty());
        }
        let mut k: usize = 0;
        while k < atoms.len()
            invariant
                k <= atoms.len(),
                i < notes.len(),
                counts.len() == LONGEST + 1,
                forall|j: int| 0 <= j < atoms.len() ==> is_atom((#[trigger] atoms[j]) as int),
                forall|t: int|
                    0 <= t <= LONGEST ==> #[trigger] counts[t] == ({
                        let n = uses(notes@.take(i as int), t) + occurrences(
                            atoms@.take(k as int),
                            t,
                        );
                        if n < 3 {
                            n as int
                        } else {
                            3
                        }
                    }),
            decreases atoms.len() - k,
        {
            let atom: Tick = atoms[k];
            proof {
                lemma_atom_of(atom as int);
                assert(atoms@.take(k + 1).drop_last() =~= atoms@.take(k as int));
            }
            let count: u8 = counts[atom as usize];
            if count < 3 {
                counts.set(atom as usize, count + 1);
            }
            k += 1;
        }
        proof {
            assert(atoms@.take(k as int) =~= atoms@);
        }
        end = note.off;
        i += 1;
    }
    proof {
        assert(notes@.take(i as int) =~= notes@);
    }
    Ok(counts)
}

proof fn lemma_ascii_commands(commands: Seq<Command>)
    ensures
        all_ascii(texts(commands)),
    decreases commands.len(),
{
    if commands.len() > 0 {
        lemma_ascii_commands(commands.drop_last());
        let c = commands.last();
        let t = text_of(c);
        match c {
            Command::Tempo(n) => {
                lemma_decimal_value(n as nat);
            },
            Command::Volume(n) => {
                lemma_decimal_value(n as nat);
            },
            Command::Octave(n) => {
                lemma_decimal_value(n as nat);
            },
            Command::Length(n, _) => {
                lemma_decimal_value(n as nat);
            },
            Command::Rest(length, _) => {
                if length is Some {
                    lemma_decimal_value(length->Some_0 as nat);
                }
            },
            Command::Note(_, _, length, _) => {
                if length is Some {
                    lemma_decimal_value(length->Some_0 as nat);
                }
            },
            _ => {},
        }
        assert(all_ascii(t));
    }
}

/// Writes notes and tempos as one part, with a table of lengths at hand.
pub fn emit_with(notes: &[Note], tempos: &[Tempo], total: Tick, table: &LengthTable) -> (r: Result<
    String,
    EmitError,
>)
    requires
        table.well_formed(),
    ensures
        match r {
            Ok(text) => part_text(notes@, tempos@, total as int) matches Ok(bytes) && text@
                == ascii_chars(bytes) && all_ascii(bytes),
            Err(e) => part_text(notes@, tempos@, total as int) == Err::<Seq<u8>, _>(e),
        },
{
    if total < 0 {
        return Err(EmitError::NegativeTotal { total });
    }
    let sorted = sort_notes(notes);
    let counts = match count_atoms(&sorted, table) {
        Err(e) => {
            return Err(e);
        },
        Ok(counts) => counts,
    };
    let ordered = sort_tempos(tempos);
    let mut k: usize = 0;
    while k < ordered.len()
        invariant
            k <= ordered.len(),
            total >= 0,
            notes_fault(by_onset(notes@), 0) is None,
            ordered@ == by_tick(tempos@),
            tempos_fault(ordered@, k as int) == tempos_fault(ordered@, 0),
        decreases ordered.len() - k,
    {
        let (tick, value) = ordered[k];
        if tick < 0 || value <= 0 {
            return Err(EmitError::InvalidTempo { value, tick });
        }
        k += 1;
    }
    let ghost s = sorted@;
    let ghost t = ordered@;
    proof {
        assert(s.take(0) =~= Seq::<Note>::empty());
        lemma_no_note_fault(s, 0);
        lemma_no_tempo_fault(t, 0);
        lemma_stable_sort(tempos@, |t: Tempo| tempo_key(t));
        assert forall|k: int, l: int| 0 <= k <= l < t.len() implies (#[trigger] t[k]).0 <= (
        #[trigger] t[l]).0 by {
            assert(sorted_by(t, |t: Tempo| tempo_key(t)));
        }
    }
    let mut writer = Writer::new();
    let ghost mut now = blank();
    let ghost whole = with_notes(blank(), s, 0, t, 0);
    let mut next: usize = 0;
    let mut i: usize = 0;
    while i < sorted.len()
        invariant
            i <= sorted.len(),
            next <= ordered.len(),
            s == sorted@,
            t == ordered@,
            table.well_formed(),
            counts_uses(counts@, s),
            sound_notes(s),
            forall|k: int| 0 <= k < t.len() ==> (#[trigger] t[k]).0 >= 0 && t[k].1 > 0,
            forall|k: int, l: int|
                0 <= k <= l < t.len() ==> (#[trigger] t[k]).0 <= (#[trigger] t[l]).0,
            writer.holds(now),
            now.time >= 0,
            whole == with_notes(now, s, i as int, t, next as int),
            whole is Err ==> part_text(notes@, tempos@, total as int) == Err::<Seq<u8>, _>(
                whole->Err_0,
            ),
        decreases sorted.len() - i,
    {
        let note = sorted[i];
        let ghost begin = tempos_until(t, next as int, note.on + 1);
        proof {
            lemma_tempos_until(t, next as int, note.on + 1);
            lemma_tempos_until(t, begin, note.off as int);
        }
        let ghost led = with_tempos(now, t, next as int, begin, s);
        while next < ordered.len() && ordered[next].0 <= note.on
            invariant
                next <= begin <= t.len(),
                i < sorted.len(),
                note == s[i as int],
                s == sorted@,
                t == ordered@,
                table.well_formed(),
                counts_uses(counts@, s),
                forall|k: int| 0 <= k < t.len() ==> (#[trigger] t[k]).0 >= 0 && t[k].1 > 0,
                writer.holds(now),
                now.time >= 0,
                begin == tempos_until(t, next as int, note.on + 1),
                forall|k: int| next <= k < begin ==> (#[trigger] t[k]).0 < note.on + 1,
                begin < t.len() ==> t[begin].0 >= note.on + 1,
                led == with_tempos(now, t, next as int, begin, s),
                led is Err ==> whole == Err::<Written, _>(led->Err_0),
                whole is Err ==> part_text(notes@, tempos@, total as int) == Err::<Seq<u8>, _>(
                    whole->Err_0,
                ),
            decreases ordered.len() - next,
        {
            let (tick, value) = ordered[next];
            match writer.rest_until(tick, table, &counts, Ghost(now), Ghost(s)) {
                Err(e) => {
                    return Err(e);
                },
                Ok(_) => {},
            }
            proof {
                let w = with_rest_until(now, tick as int, s)->Ok_0;
                lemma_rest_time(now, tick as int, s);
                now = w;
            }
            writer.tempo(value, Ghost(now));
            proof {
                now = put(now, Command::Tempo(value as Tick));
            }
            next += 1;
        }
        proof {
            assert(next == begin);
        }
        match writer.rest_until(note.on, table, &counts, Ghost(now), Ghost(s)) {
            Err(e) => {
                return Err(e);
            },
            Ok(_) => {},
        }
        proof {
            now = with_rest_until(now, note.on as int, s)->Ok_0;
        }
        let first: usize = next;
        while next < ordered.len() && ordered[next].0 < note.off
            invariant
                begin == first <= next <= ordered.len(),
                t == ordered@,
                tempos_until(t, next as int, note.off as int) == tempos_until(
                    t,
                    begin,
                    note.off as int,
                ),
            decreases ordered.len() - next,
        {
            next += 1;
        }
        proof {
            assert forall|k: int| first <= k < next implies note.on < (#[trigger] ordered[k]).0
                < note.off by {
                assert(t[begin].0 <= t[k].0);
                assert(t[k].0 < note.off);
            }
        }
        match writer.note(
            &note,
            &ordered,
            first,
            next,
            table,
            &counts,
            Ghost(now),
            Ghost(s),
        ) {
            Err(e) => {
                return Err(e);
            },
            Ok(_) => {},
        }
        proof {
            now = with_note(now, note, t.subrange(first as int, next as int), s)->Ok_0;
        }
        i += 1;
    }
    let ghost led = with_tempos(now, t, next as int, t.len() as int, s);
    while next < ordered.len()
        invariant
            next <= ordered.len(),
            s == sorted@,
            t == ordered@,
            table.well_formed(),
            counts_uses(counts@, s),
            forall|k: int| 0 <= k < t.len() ==> (#[trigger] t[k]).0 >= 0 && t[k].1 > 0,
            writer.holds(now),
            now.time >= 0,
            whole == with_tempos(now, t, next as int, t.len() as int, s),
            whole is Err ==> part_text(notes@, tempos@, total as int) == Err::<Seq<u8>, _>(
                whole->Err_0,
            ),
        decreases ordered.len() - next,
    {
        let (tick, value) = ordered[next];
        match writer.rest_until(tick, table, &counts, Ghost(now), Ghost(s)) {
            Err(e) => {
                return Err(e);
            },
            Ok(_) => {},
        }
        proof {
            lemma_rest_time(now, tick as int, s);
            now = with_rest_until(now, tick as int, s)->Ok_0;
        }
        writer.tempo(value, Ghost(now));
        proof {
            now = put(now, Command::Tempo(value as Tick));
        }
        next += 1;
    }
    proof {
        lemma_ascii_commands(now.commands);
    }
    Ok(ascii_string(&writer.output))
}

proof fn lemma_rest_time(w: Written, tick: int, notes: Seq<Note>)
    requires
        with_rest_until(w, tick, notes) is Ok,
        0 <= w.time,
        i64::MIN <= tick <= i64::MAX,
    ensures
        with_rest_until(w, tick, notes)->Ok_0.time == (if tick > w.time {
            tick
        } else {
            w.time as int
        }),
{
}

/// Writes notes and tempos as one part; silence behind the last of them is left out.
pub fn emit_part(notes: &[Note], tempos: &[Tempo], total: Tick) -> (r: Result<String, EmitError>)
    ensures
        match r {
            Ok(text) => part_text(notes@, tempos@, total as int) matches Ok(bytes) && text@
                == ascii_chars(bytes) && all_ascii(bytes),
            Err(e) => part_text(notes@, tempos@, total as int) == Err::<Seq<u8>, _>(e),
        },
{
    emit_with(notes, tempos, total, &LengthTable::new())
}

} // verus!
