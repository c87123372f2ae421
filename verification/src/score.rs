//! The notes, tempos and tracks that every part of the library works on.
use crate::meta::{Entry, Meta};
use crate::order::{lemma_order_sorts, order, stable_sort, Key};
use crate::text::{
    begins_with, chars_of, copy_chars, cut, find_char, has_prefix, integer_of, parse_i64, pieces,
    split_chars, string_views, views,
};
use vstd::prelude::*;

verus! {

/// A position or a duration in a score; a whole note lasts 384 of them.
pub type Tick = i64;

/// The tick from which a number of beats per minute applies.
pub type Tempo = (Tick, i32);

/// One sounding note of one part of one track.
#[derive(Clone, Copy, Debug, PartialEq, Eq)]
pub struct Note {
    pub on: Tick,
    pub off: Tick,
    pub pitch: i32,
    pub vel: i32,
    pub src: (usize, usize),
}

impl Note {
    /// The number of ticks for which the note sounds.
    pub fn duration(&self) -> (ticks: Tick)
        requires
            i64::MIN <= self.off - self.on <= i64::MAX,
        ensures
            ticks == self.off - self.on,
    {
        self.off - self.on
    }
}

/// The key by which notes are put in the order in which they begin.
pub open spec fn onset_key(note: Note) -> Key {
    (note.on, 0, 0)
}

/// The notes in the order in which they begin.
pub open spec fn by_onset(notes: Seq<Note>) -> Seq<Note> {
    stable_sort(notes, |n: Note| onset_key(n))
}

/// The key by which tempos are put in order.
pub open spec fn tempo_key(tempo: Tempo) -> Key {
    (tempo.0, tempo.1 as i64, 0)
}

/// The tempos in the order of their ticks, and of their values at one tick.
pub open spec fn by_tick(tempos: Seq<Tempo>) -> Seq<Tempo> {
    stable_sort(tempos, |t: Tempo| tempo_key(t))
}

/// Puts notes in the order in which they begin.
pub fn sort_notes(notes: &[Note]) -> (sorted: Vec<Note>)
    ensures
        sorted@ == by_onset(notes@),
{
    let mut keys: Vec<Key> = Vec::new();
    let mut i: usize = 0;
    while i < notes.len()
        invariant
            i <= notes.len(),
            keys.len() == i,
            forall|k: int| 0 <= k < i ==> #[trigger] keys[k] == onset_key(notes[k]),
        decreases notes.len() - i,
    {
        keys.push((notes[i].on, 0, 0));
        i += 1;
    }
    let sequence = order(&keys);
    let mut sorted: Vec<Note> = Vec::new();
    let mut i: usize = 0;
    let ghost f = |i: usize| notes@[i as int];
    while i < sequence.len()
        invariant
            i <= sequence.len() == notes.len(),
            f == (|i: usize| notes@[i as int]),
            forall|k: int| 0 <= k < sequence.len() ==> (#[trigger] sequence[k]) < notes.len(),
            sorted@ == sequence@.take(i as int).map_values(f),
        decreases sequence.len() - i,
    {
        sorted.push(notes[sequence[i]]);
        i += 1;
        proof {
            assert(sorted@ =~= sequence@.take(i as int).map_values(f));
        }
    }
    proof {
        assert(sequence@.take(i as int) =~= sequence@);
        lemma_order_sorts(notes@, keys@, |n: Note| onset_key(n));
    }
    sorted
}

/// Puts tempos in the order of their ticks, and of their values at one tick.
pub fn sort_tempos(tempos: &[Tempo]) -> (sorted: Vec<Tempo>)
    ensures
        sorted@ == by_tick(tempos@),
{
    let mut keys: Vec<Key> = Vec::new();
    let mut i: usize = 0;
    while i < tempos.len()
        invariant
            i <= tempos.len(),
            keys.len() == i,
            forall|k: int| 0 <= k < i ==> #[trigger] keys[k] == tempo_key(tempos[k]),
        decreases tempos.len() - i,
    {
        keys.push((tempos[i].0, tempos[i].1 as i64, 0));
        i += 1;
    }
    let sequence = order(&keys);
    let mut sorted: Vec<Tempo> = Vec::new();
    let mut i: usize = 0;
    let ghost f = |i: usize| tempos@[i as int];
    while i < sequence.len()
        invariant
            i <= sequence.len() == tempos.len(),
            f == (|i: usize| tempos@[i as int]),
            forall|k: int| 0 <= k < sequence.len() ==> (#[trigger] sequence[k]) < tempos.len(),
            sorted@ == sequence@.take(i as int).map_values(f),
        decreases sequence.len() - i,
    {
        sorted.push(tempos[sequence[i]]);
        i += 1;
        proof {
            assert(sorted@ =~= sequence@.take(i as int).map_values(f));
        }
    }
    proof {
        assert(sequence@.take(i as int) =~= sequence@);
        lemma_order_sorts(tempos@, keys@, |t: Tempo| tempo_key(t));
    }
    sorted
}

/// What a track consists of.
#[verifier::ext_equal]
pub struct TrackView {
    pub mml: Seq<char>,
    pub meta: Seq<Entry>,
    pub parts: Seq<Seq<Note>>,
    pub tempos: Seq<Tempo>,
}

/// What a score consists of.
#[verifier::ext_equal]
pub struct ScoreView {
    pub head: Seq<Seq<char>>,
    pub tracks: Seq<TrackView>,
    pub tail: Seq<Seq<char>>,
}

/// The MML of some parts, what is noted of them, and the notes and tempos that it writes.
#[derive(Debug)]
pub struct Track {
    pub mml: String,
    pub meta: Meta,
    pub parts: Vec<Vec<Note>>,
    pub tempos: Vec<Tempo>,
}

/// Tracks between the lines that stand before and behind them in a file.
#[derive(Debug)]
pub struct Score {
    pub head: Vec<String>,
    pub tracks: Vec<Track>,
    pub tail: Vec<String>,
}

/// Parts as sequences of notes.
pub open spec fn part_views(parts: Seq<Vec<Note>>) -> Seq<Seq<Note>> {
    Seq::new(parts.len(), |i: int| parts[i]@)
}

/// Tracks as what they consist of.
pub open spec fn track_views(tracks: Seq<Track>) -> Seq<TrackView> {
    Seq::new(tracks.len(), |i: int| tracks[i]@)
}

impl View for Track {
    type V = TrackView;

    open spec fn view(&self) -> TrackView {
        TrackView {
            mml: self.mml@,
            meta: self.meta@,
            parts: part_views(self.parts@),
            tempos: self.tempos@,
        }
    }
}

impl View for Score {
    type V = ScoreView;

    open spec fn view(&self) -> ScoreView {
        ScoreView {
            head: string_views(self.head@),
            tracks: track_views(self.tracks@),
            tail: string_views(self.tail@),
        }
    }
}

/// Copies notes.
pub fn copy_notes(notes: &[Note]) -> (r: Vec<Note>)
    ensures
        r@ == notes@,
{
    let mut r: Vec<Note> = Vec::new();
    push_notes(&mut r, notes);
    r
}

/// Copies parts.
pub fn copy_parts(parts: &[Vec<Note>]) -> (r: Vec<Vec<Note>>)
    ensures
        part_views(r@) == part_views(parts@),
{
    let mut r: Vec<Vec<Note>> = Vec::new();
    let mut i: usize = 0;
    while i < parts.len()
        invariant
            i <= parts.len(),
            part_views(r@) == part_views(parts@).take(i as int),
        decreases parts.len() - i,
    {
        let ghost before = part_views(r@);
        r.push(copy_notes(&parts[i]));
        i += 1;
        proof {
            assert(part_views(r@) =~= before.push(parts@[i - 1]@));
            assert(part_views(r@) =~= part_views(parts@).take(i as int));
        }
    }
    proof {
        assert(part_views(parts@).take(i as int) =~= part_views(parts@));
    }
    r
}

/// Copies tempos.
pub fn copy_tempos(tempos: &[Tempo]) -> (r: Vec<Tempo>)
    ensures
        r@ == tempos@,
{
    let mut r: Vec<Tempo> = Vec::new();
    let mut i: usize = 0;
    while i < tempos.len()
        invariant
            i <= tempos.len(),
            r@ == tempos@.take(i as int),
        decreases tempos.len() - i,
    {
        r.push(tempos[i]);
        i += 1;
        proof {
            assert(r@ =~= tempos@.take(i as int));
        }
    }
    proof {
        assert(r@ =~= tempos@);
    }
    r
}

/// Copies lines.
pub fn copy_lines(lines: &[String]) -> (r: Vec<String>)
    ensures
        string_views(r@) == string_views(lines@),
{
    let mut r: Vec<String> = Vec::new();
    let mut i: usize = 0;
    while i < lines.len()
        invariant
            i <= lines.len(),
            string_views(r@) == string_views(lines@).take(i as int),
        decreases lines.len() - i,
    {
        let ghost before = string_views(r@);
        r.push(lines[i].clone());
        i += 1;
        proof {
            assert(string_views(r@) =~= before.push(lines@[i - 1]@));
            assert(string_views(r@) =~= string_views(lines@).take(i as int));
        }
    }
    proof {
        assert(string_views(lines@).take(i as int) =~= string_views(lines@));
    }
    r
}

impl Clone for Track {
    fn clone(&self) -> (r: Self)
        ensures
            r@ == self@,
    {
        Track {
            mml: self.mml.clone(),
            meta: self.meta.copy(),
            parts: copy_parts(&self.parts),
            tempos: copy_tempos(&self.tempos),
        }
    }
}

impl Clone for Score {
    fn clone(&self) -> (r: Self)
        ensures
            r@ == self@,
    {
        let mut tracks: Vec<Track> = Vec::new();
        let mut i: usize = 0;
        while i < self.tracks.len()
            invariant
                i <= self.tracks.len(),
                track_views(tracks@) == track_views(self.tracks@).take(i as int),
            decreases self.tracks.len() - i,
        {
            let ghost before = track_views(tracks@);
            let track = self.tracks[i].clone();
            tracks.push(track);
            i += 1;
            proof {
                assert(track_views(tracks@) =~= before.push(self.tracks@[i - 1]@));
                assert(track_views(tracks@) =~= track_views(self.tracks@).take(i as int));
            }
        }
        proof {
            assert(track_views(self.tracks@).take(i as int) =~= track_views(self.tracks@));
        }
        Score { head: copy_lines(&self.head), tracks, tail: copy_lines(&self.tail) }
    }
}

impl Default for Track {
    fn default() -> (track: Self)
        ensures
            track@ == (TrackView {
                mml: Seq::empty(),
                meta: Seq::empty(),
                parts: Seq::empty(),
                tempos: Seq::empty(),
            }),
    {
        let track = Track {
            mml: String::new(),
            meta: Meta::new(),
            parts: Vec::new(),
            tempos: Vec::new(),
        };
        proof {
            assert(part_views(track.parts@) =~= Seq::<Seq<Note>>::empty());
        }
        track
    }
}

impl Default for Score {
    fn default() -> (score: Self)
        ensures
            score@ == (ScoreView {
                head: Seq::empty(),
                tracks: Seq::empty(),
                tail: Seq::empty(),
            }),
    {
        let score = Score { head: Vec::new(), tracks: Vec::new(), tail: Vec::new() };
        proof {
            assert(string_views(score.head@) =~= Seq::<Seq<char>>::empty());
            assert(string_views(score.tail@) =~= Seq::<Seq<char>>::empty());
            assert(track_views(score.tracks@) =~= Seq::<TrackView>::empty());
        }
        score
    }
}

/// Sequences one behind the other.
pub open spec fn flat<T>(s: Seq<Seq<T>>) -> Seq<T>
    decreases s.len(),
{
    if s.len() == 0 {
        Seq::empty()
    } else {
        flat(s.drop_last()) + s.last()
    }
}

impl ScoreView {
    /// The notes of every part of every track, one part behind the other.
    pub open spec fn notes(self) -> Seq<Note> {
        flat(Seq::new(self.tracks.len(), |i: int| flat(self.tracks[i].parts)))
    }
}

/// Tempos with one more, in place of the one at its tick; the ticks ascend.
pub open spec fn with_tempo(tempos: Seq<Tempo>, tempo: Tempo) -> Seq<Tempo>
    decreases tempos.len(),
{
    if tempos.len() == 0 || tempos.last().0 < tempo.0 {
        tempos.push(tempo)
    } else if tempos.last().0 == tempo.0 {
        tempos.drop_last().push(tempo)
    } else {
        with_tempo(tempos.drop_last(), tempo).push(tempos.last())
    }
}

/// Tempos with others put in one after the other.
pub open spec fn with_all(tempos: Seq<Tempo>, more: Seq<Tempo>) -> Seq<Tempo>
    decreases more.len(),
{
    if more.len() == 0 {
        tempos
    } else {
        with_tempo(with_all(tempos, more.drop_last()), more.last())
    }
}

/// Whether every tempo stands at a later tick than the one before it.
pub open spec fn ticks_ascend(tempos: Seq<Tempo>) -> bool {
    forall|i: int, j: int|
        #![trigger tempos[i], tempos[j]]
        0 <= i < j < tempos.len() ==> tempos[i].0 < tempos[j].0
}

/// Putting a tempo in keeps the ticks ascending: it is there afterwards, and so is every
/// other one at another tick.
pub proof fn law_with_tempo(tempos: Seq<Tempo>, tempo: Tempo, other: Tempo)
    requires
        ticks_ascend(tempos),
    ensures
        ticks_ascend(with_tempo(tempos, tempo)),
        with_tempo(tempos, tempo).contains(other) <==> other == tempo || (other.0 != tempo.0
            && tempos.contains(other)),
        with_tempo(tempos, tempo).len() >= 1,
        with_tempo(tempos, tempo).len() >= tempos.len(),
    decreases tempos.len(),
{
    let new = with_tempo(tempos, tempo);
    let n = tempos.len() as int;
    if n == 0 || tempos.last().0 < tempo.0 {
        if tempos.contains(other) {
            let k = choose|k: int| 0 <= k < n && tempos[k] == other;
            assert(new[k] == other);
            assert(tempos[k].0 <= tempos[n - 1].0);
        }
        assert(new[n] == tempo);
        if new.contains(other) && other != tempo {
            let k = choose|k: int| 0 <= k < new.len() && new[k] == other;
            assert(tempos[k] == other);
            assert(tempos[k].0 <= tempos[n - 1].0);
        }
    } else if tempos.last().0 == tempo.0 {
        if tempos.contains(other) && other.0 != tempo.0 {
            let k = choose|k: int| 0 <= k < n && tempos[k] == other;
            assert(new[k] == other);
        }
        assert(new[n - 1] == tempo);
        if new.contains(other) && other != tempo {
            let k = choose|k: int| 0 <= k < new.len() && new[k] == other;
            assert(tempos[k] == other);
            assert(tempos[k].0 < tempos[n - 1].0);
        }
    } else {
        let front = tempos.drop_last();
        assert(ticks_ascend(front));
        law_with_tempo(front, tempo, other);
        let inner = with_tempo(front, tempo);
        if front.contains(other) {
            let k = choose|k: int| 0 <= k < front.len() && front[k] == other;
            assert(tempos[k] == other);
        }
        if tempos.contains(other) {
            let k = choose|k: int| 0 <= k < n && tempos[k] == other;
            if k < n - 1 {
                assert(front[k] == other);
            }
        }
        if inner.contains(other) {
            let k = choose|k: int| 0 <= k < inner.len() && inner[k] == other;
            assert(new[k] == other);
        }
        if new.contains(other) {
            let k = choose|k: int| 0 <= k < new.len() && new[k] == other;
            if k < inner.len() {
                assert(inner[k] == other);
            } else {
                assert(tempos[n - 1] == other);
            }
        }
        assert(new[inner.len() as int] == tempos[n - 1]);
        assert forall|i: int, j: int|
            #![trigger new[i], new[j]]
            0 <= i < j < new.len() implies new[i].0 < new[j].0 by {
            assert(new[i] == inner[i]);
            if j < inner.len() {
                assert(new[j] == inner[j]);
            } else {
                assert(inner.contains(inner[i]));
                law_with_tempo(front, tempo, inner[i]);
                if inner[i] != tempo {
                    let k = choose|k: int| 0 <= k < front.len() && front[k] == inner[i];
                    assert(tempos[k] == inner[i]);
                    assert(tempos[k].0 < tempos[n - 1].0);
                }
            }
        }
    }
}

pub proof fn lemma_with_all_ascends(tempos: Seq<Tempo>, more: Seq<Tempo>)
    requires
        ticks_ascend(tempos),
    ensures
        ticks_ascend(with_all(tempos, more)),
    decreases more.len(),
{
    if more.len() > 0 {
        lemma_with_all_ascends(tempos, more.drop_last());
        law_with_tempo(with_all(tempos, more.drop_last()), more.last(), more.last());
    }
}

/// Puts a tempo in, in place of the one at its tick.
pub fn insert_tempo(tempos: &mut Vec<Tempo>, tempo: Tempo)
    ensures
        final(tempos)@ == with_tempo(old(tempos)@, tempo),
{
    let ghost before = tempos@;
    let mut i: usize = tempos.len();
    proof {
        assert(before.take(i as int) =~= before);
        assert(with_tempo(before.take(i as int), tempo) + before.skip(i as int) =~= with_tempo(
            before,
            tempo,
        ));
    }
    while i > 0 && tempos[i - 1].0 > tempo.0
        invariant
            i <= tempos.len(),
            tempos@ == before,
            with_tempo(before.take(i as int), tempo) + before.skip(i as int) == with_tempo(
                before,
                tempo,
            ),
        decreases i,
    {
        proof {
            assert(before.take(i as int).drop_last() =~= before.take(i - 1));
            assert(with_tempo(before.take(i - 1), tempo).push(before[i - 1]) + before.skip(i as int)
                =~= with_tempo(before.take(i - 1), tempo) + before.skip(i - 1));
        }
        i -= 1;
    }
    if i > 0 && tempos[i - 1].0 == tempo.0 {
        tempos.set(i - 1, tempo);
        proof {
            assert(before.take(i as int).last() == before[i - 1]);
            assert(tempos@ =~= before.take(i as int).drop_last().push(tempo) + before.skip(
                i as int,
            ));
        }
    } else {
        tempos.insert(i, tempo);
        proof {
            if i > 0 {
                assert(before.take(i as int).last() == before[i - 1]);
            }
            assert(tempos@ =~= before.take(i as int).push(tempo) + before.skip(i as int));
        }
    }
}

/// Puts tempos in one after the other.
pub fn insert_tempos(tempos: &mut Vec<Tempo>, more: &Vec<Tempo>)
    ensures
        final(tempos)@ == with_all(old(tempos)@, more@),
{
    let mut i: usize = 0;
    proof {
        assert(more@.take(0) =~= Seq::<Tempo>::empty());
    }
    while i < more.len()
        invariant
            i <= more.len(),
            tempos@ == with_all(old(tempos)@, more@.take(i as int)),
        decreases more.len() - i,
    {
        insert_tempo(tempos, more[i]);
        i += 1;
        proof {
            assert(more@.take(i as int).drop_last() =~= more@.take(i - 1));
        }
    }
    proof {
        assert(more@.take(i as int) =~= more@);
    }
}

/// The tempos of the first tracks; where two stand at one tick, the later track's counts.
pub open spec fn track_tempos(tracks: Seq<TrackView>, n: int) -> Seq<Tempo>
    decreases n,
{
    if n <= 0 {
        Seq::empty()
    } else {
        with_all(track_tempos(tracks, n - 1), tracks[n - 1].tempos)
    }
}

/// The tempo that a text such as `96T120` writes: a tick, a `T` and beats per minute.
pub open spec fn tempo_event(s: Seq<char>) -> Option<Tempo> {
    match cut(s, 'T') {
        Some((tick, bpm)) => match (integer_of(tick), integer_of(bpm)) {
            (Some(t), Some(b)) => if 0 <= t <= i64::MAX && 0 < b <= i32::MAX {
                Some((t as Tick, b as i32))
            } else {
                None
            },
            _ => None,
        },
        None => None,
    }
}

/// Tempos with those that the first of some texts write; a text that writes none is passed
/// over.
pub open spec fn with_events(tempos: Seq<Tempo>, events: Seq<Seq<char>>, n: int) -> Seq<Tempo>
    decreases n,
{
    if n <= 0 {
        tempos
    } else {
        let before = with_events(tempos, events, n - 1);
        match tempo_event(events[n - 1]) {
            Some(tempo) => with_tempo(before, tempo),
            None => before,
        }
    }
}

/// Tempos with those that a line of a score's head writes.
pub open spec fn with_line(tempos: Seq<Tempo>, line: Seq<char>) -> Seq<Tempo> {
    if begins_with(line, "tempo="@) {
        let events = pieces(line.skip("tempo="@.len() as int), ',');
        with_events(tempos, events, events.len() as int)
    } else {
        tempos
    }
}

/// Tempos with those that the first lines of a score's head write.
pub open spec fn with_head(tempos: Seq<Tempo>, head: Seq<Seq<char>>, n: int) -> Seq<Tempo>
    decreases n,
{
    if n <= 0 {
        tempos
    } else {
        with_line(with_head(tempos, head, n - 1), head[n - 1])
    }
}

impl ScoreView {
    /// The tempos of all tracks, overridden by those that the head writes.
    pub open spec fn all_tempos(self) -> Seq<Tempo> {
        with_head(
            track_tempos(self.tracks, self.tracks.len() as int),
            self.head,
            self.head.len() as int,
        )
    }
}

fn read_tempo_event(s: &[char]) -> (r: Option<Tempo>)
    ensures
        r == tempo_event(s@),
{
    let t = find_char(s, 'T', 0);
    if t == s.len() {
        return None;
    }
    let left = copy_chars(s, 0, t);
    let right = copy_chars(s, t + 1, s.len());
    proof {
        assert(left@ =~= s@.take(t as int));
        assert(right@ =~= s@.skip(t + 1));
    }
    match (parse_i64(&left), parse_i64(&right)) {
        (Some(tick), Some(bpm)) => if tick >= 0 && bpm > 0 && bpm <= 2147483647 {
            Some((tick, bpm as i32))
        } else {
            None
        },
        _ => None,
    }
}

fn insert_line(tempos: &mut Vec<Tempo>, line: &str)
    ensures
        final(tempos)@ == with_line(old(tempos)@, line@),
{
    let chars = chars_of(line);
    let prefix = chars_of("tempo=");
    if !has_prefix(&chars, &prefix) {
        return;
    }
    let rest = copy_chars(&chars, prefix.len(), chars.len());
    proof {
        assert(rest@ =~= line@.skip("tempo="@.len() as int));
    }
    let events = split_chars(&rest, ',');
    let mut i: usize = 0;
    while i < events.len()
        invariant
            i <= events.len(),
            tempos@ == with_events(old(tempos)@, views(events@), i as int),
        decreases events.len() - i,
    {
        match read_tempo_event(&events[i]) {
            Some(tempo) => {
                insert_tempo(tempos, tempo);
            },
            None => {},
        }
        i += 1;
    }
}

/// The last tick at which one of some notes ends, or zero where there are none.
pub open spec fn last_end(notes: Seq<Note>) -> Tick
    decreases notes.len(),
{
    if notes.len() == 0 {
        0
    } else if notes.len() == 1 || last_end(notes.drop_last()) <= notes.last().off {
        notes.last().off
    } else {
        last_end(notes.drop_last())
    }
}

/// No note ends later than the last end, and one of them ends there.
pub proof fn law_last_end(notes: Seq<Note>)
    ensures
        forall|i: int| 0 <= i < notes.len() ==> (#[trigger] notes[i]).off <= last_end(notes),
        notes.len() > 0 ==> exists|i: int|
            0 <= i < notes.len() && (#[trigger] notes[i]).off == last_end(notes),
    decreases notes.len(),
{
    if notes.len() > 0 {
        let front = notes.drop_last();
        law_last_end(front);
        assert forall|i: int| 0 <= i < notes.len() implies (#[trigger] notes[i]).off <= last_end(
            notes,
        ) by {
            if i < front.len() {
                assert(front[i].off <= last_end(front));
            }
        }
        if notes.len() == 1 || last_end(front) <= notes.last().off {
            assert(notes[notes.len() - 1].off == last_end(notes));
        } else {
            let i = choose|i: int| 0 <= i < front.len() && (#[trigger] front[i]).off == last_end(
                front,
            );
            assert(notes[i].off == last_end(notes));
        }
    }
}

impl Score {
    /// Collects the notes of every part of every track, one part behind the other.
    pub fn all_notes(&self) -> (notes: Vec<Note>)
        ensures
            notes@ == self@.notes(),
    {
        let ghost lists = Seq::new(self@.tracks.len(), |i: int| flat(self@.tracks[i].parts));
        let mut notes: Vec<Note> = Vec::new();
        let mut i: usize = 0;
        proof {
            assert(lists.take(0) =~= Seq::<Seq<Note>>::empty());
        }
        while i < self.tracks.len()
            invariant
                i <= self.tracks.len(),
                lists == Seq::new(self@.tracks.len(), |i: int| flat(self@.tracks[i].parts)),
                notes@ == flat(lists.take(i as int)),
            decreases self.tracks.len() - i,
        {
            let parts = &self.tracks[i].parts;
            let ghost before = notes@;
            let ghost inner = part_views(parts@);
            let mut k: usize = 0;
            proof {
                assert(inner.take(0) =~= Seq::<Seq<Note>>::empty());
                assert(before + flat(inner.take(0)) =~= before);
            }
            while k < parts.len()
                invariant
                    k <= parts.len(),
                    inner == part_views(parts@),
                    notes@ == before + flat(inner.take(k as int)),
                decreases parts.len() - k,
            {
                push_notes(&mut notes, &parts[k]);
                k += 1;
                proof {
                    assert(inner.take(k as int).drop_last() =~= inner.take(k - 1));
                    assert(notes@ =~= before + flat(inner.take(k as int)));
                }
            }
            proof {
                assert(inner.take(k as int) =~= inner);
                assert(lists.take(i + 1).drop_last() =~= lists.take(i as int));
                assert(lists[i as int] == flat(inner));
            }
            i += 1;
        }
        proof {
            assert(lists.take(i as int) =~= lists);
        }
        notes
    }

    /// Merges the tempos of all tracks with those that the head writes, which count where two
    /// stand at one tick.
    pub fn tempos(&self) -> (tempos: Vec<Tempo>)
        ensures
            tempos@ == self@.all_tempos(),
            ticks_ascend(tempos@),
    {
        let mut tempos: Vec<Tempo> = Vec::new();
        let mut i: usize = 0;
        while i < self.tracks.len()
            invariant
                i <= self.tracks.len(),
                tempos@ == track_tempos(self@.tracks, i as int),
                ticks_ascend(tempos@),
            decreases self.tracks.len() - i,
        {
            proof {
                lemma_with_all_ascends(tempos@, self.tracks[i as int].tempos@);
            }
            insert_tempos(&mut tempos, &self.tracks[i].tempos);
            i += 1;
        }
        let ghost base = tempos@;
        let mut i: usize = 0;
        while i < self.head.len()
            invariant
                i <= self.head.len(),
                tempos@ == with_head(base, self@.head, i as int),
                ticks_ascend(tempos@),
            decreases self.head.len() - i,
        {
            proof {
                lemma_with_line_ascends(tempos@, self.head[i as int]@);
            }
            insert_line(&mut tempos, self.head[i].as_str());
            i += 1;
        }
        tempos
    }

    /// The tick at which the last note ends.
    pub fn total_ticks(&self) -> (ticks: Tick)
        ensures
            ticks == last_end(self@.notes()),
    {
        let notes = self.all_notes();
        end_of(&notes)
    }
}

/// The last tick at which one of some notes ends, or zero where there are none.
pub fn end_of(notes: &[Note]) -> (end: Tick)
    ensures
        end == last_end(notes@),
{
    let mut end: Tick = 0;
    let mut i: usize = 0;
    proof {
        assert(notes@.take(0) =~= Seq::<Note>::empty());
    }
    while i < notes.len()
        invariant
            i <= notes.len(),
            end == last_end(notes@.take(i as int)),
        decreases notes.len() - i,
    {
        proof {
            assert(notes@.take(i + 1).drop_last() =~= notes@.take(i as int));
        }
        if i == 0 || end <= notes[i].off {
            end = notes[i].off;
        }
        i += 1;
    }
    proof {
        assert(notes@.take(i as int) =~= notes@);
    }
    end
}

proof fn lemma_with_events_ascends(tempos: Seq<Tempo>, events: Seq<Seq<char>>, n: int)
    requires
        ticks_ascend(tempos),
    ensures
        ticks_ascend(with_events(tempos, events, n)),
    decreases n,
{
    if n > 0 {
        lemma_with_events_ascends(tempos, events, n - 1);
        match tempo_event(events[n - 1]) {
            Some(tempo) => {
                law_with_tempo(with_events(tempos, events, n - 1), tempo, tempo);
            },
            None => {},
        }
    }
}

pub proof fn lemma_with_line_ascends(tempos: Seq<Tempo>, line: Seq<char>)
    requires
        ticks_ascend(tempos),
    ensures
        ticks_ascend(with_line(tempos, line)),
{
    let events = pieces(line.skip("tempo="@.len() as int), ',');
    lemma_with_events_ascends(tempos, events, events.len() as int);
}

/// Appends notes.
pub fn push_notes(out: &mut Vec<Note>, notes: &[Note])
    ensures
        final(out)@ == old(out)@ + notes@,
{
    let mut i: usize = 0;
    while i < notes.len()
        invariant
            i <= notes.len(),
            out@ == old(out)@ + notes@.take(i as int),
        decreases notes.len() - i,
    {
        out.push(notes[i]);
        i += 1;
        proof {
            assert(out@ =~= old(out)@ + notes@.take(i as int));
        }
    }
    proof {
        assert(out@ =~= old(out)@ + notes@);
    }
}

} // verus!
