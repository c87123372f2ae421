//! Placing the points in time of a MIDI file on the ticks of a score.
use crate::midi::{MidiFault, MidiNote};
use crate::score::{insert_tempo, with_tempo, Tempo, Tick};
use crate::smf::SmfTiming;
use crate::song::{MidiSong, SongView};
use vstd::prelude::*;

verus! {

/// Times with one more, where it is not there yet; they ascend.
pub open spec fn with_time(s: Seq<u64>, t: u64) -> Seq<u64>
    decreases s.len(),
{
    if s.len() == 0 || s.last() < t {
        s.push(t)
    } else if s.last() == t {
        s
    } else {
        with_time(s.drop_last(), t).push(s.last())
    }
}

pub open spec fn times_ascend(s: Seq<u64>) -> bool {
    forall|i: int, j: int| #![trigger s[i], s[j]] 0 <= i < j < s.len() ==> s[i] < s[j]
}

proof fn lemma_with_time(s: Seq<u64>, t: u64, other: u64)
    requires
        times_ascend(s),
    ensures
        times_ascend(with_time(s, t)),
        with_time(s, t).contains(other) <==> other == t || s.contains(other),
        with_time(s, t).len() >= s.len(),
        with_time(s, t).len() > 0,
        s.len() > 0 && s[0] <= t ==> with_time(s, t)[0] == s[0],
    decreases s.len(),
{
    let new = with_time(s, t);
    let n = s.len() as int;
    if n == 0 || s.last() < t {
        assert(new[n] == t);
        if s.contains(other) {
            let k = choose|k: int| 0 <= k < n && s[k] == other;
            assert(new[k] == other);
        }
        if new.contains(other) && other != t {
            let k = choose|k: int| 0 <= k < new.len() && new[k] == other;
            assert(s[k] == other);
        }
        assert forall|i: int, j: int|
            #![trigger new[i], new[j]]
            0 <= i < j < new.len() implies new[i] < new[j] by {
            if j == n && i < n - 1 {
                assert(s[i] < s[n - 1]);
            }
        }
    } else if s.last() == t {
        assert(s[n - 1] == t);
    } else {
        let front = s.drop_last();
        assert(times_ascend(front));
        lemma_with_time(front, t, other);
        let inner = with_time(front, t);
        assert(new[inner.len() as int] == s[n - 1]);
        if s.contains(other) {
            let k = choose|k: int| 0 <= k < n && s[k] == other;
            if k < n - 1 {
                assert(front[k] == other);
            }
        }
        if front.contains(other) {
            let k = choose|k: int| 0 <= k < front.len() && front[k] == other;
            assert(s[k] == other);
        }
        if inner.contains(other) {
            let k = choose|k: int| 0 <= k < inner.len() && inner[k] == other;
            assert(new[k] == other);
        }
        if new.contains(other) {
            let k = choose|k: int| 0 <= k < new.len() && new[k] == other;
            if k < inner.len() {
                assert(inner[k] == other);
            } else {
                assert(s[n - 1] == other);
            }
        }
        assert forall|i: int, j: int|
            #![trigger new[i], new[j]]
            0 <= i < j < new.len() implies new[i] < new[j] by {
            assert(new[i] == inner[i]);
            if j < inner.len() {
                assert(new[j] == inner[j]);
            } else {
                lemma_with_time(front, t, inner[i]);
                assert(inner.contains(inner[i]));
                if inner[i] != t {
                    let k = choose|k: int| 0 <= k < front.len() && front[k] == inner[i];
                    assert(s[k] < s[n - 1]);
                }
            }
        }
    }
}

fn insert_time(s: &mut Vec<u64>, t: u64)
    ensures
        final(s)@ == with_time(old(s)@, t),
{
    let ghost before = s@;
    let mut i: usize = s.len();
    proof {
        assert(before.take(i as int) =~= before);
        assert(with_time(before.take(i as int), t) + before.skip(i as int) =~= with_time(
            before,
            t,
        ));
    }
    while i > 0 && s[i - 1] > t
        invariant
            i <= s.len(),
            s@ == before,
            with_time(before.take(i as int), t) + before.skip(i as int) == with_time(before, t),
        decreases i,
    {
        proof {
            assert(before.take(i as int).drop_last() =~= before.take(i - 1));
            assert(with_time(before.take(i - 1), t).push(before[i - 1]) + before.skip(i as int)
                =~= with_time(before.take(i - 1), t) + before.skip(i - 1));
        }
        i -= 1;
    }
    if i > 0 && s[i - 1] == t {
        proof {
            assert(before.take(i as int).last() == before[i - 1]);
            assert(s@ =~= before.take(i as int) + before.skip(i as int));
        }
    } else {
        s.insert(i, t);
        proof {
            if i > 0 {
                assert(before.take(i as int).last() == before[i - 1]);
            }
            assert(s@ =~= before.take(i as int).push(t) + before.skip(i as int));
        }
    }
}

/// Times with those of the first of some points.
pub open spec fn with_points<V>(s: Seq<u64>, points: Seq<(u64, V)>, n: int) -> Seq<u64>
    decreases n,
{
    if n <= 0 {
        s
    } else {
        with_time(with_points(s, points, n - 1), points[n - 1].0)
    }
}

/// Times with those at which the first notes begin and end.
pub open spec fn with_notes(s: Seq<u64>, notes: Seq<MidiNote>, n: int) -> Seq<u64>
    decreases n,
{
    if n <= 0 {
        s
    } else {
        with_time(
            with_time(with_notes(s, notes, n - 1), notes[n - 1].on),
            notes[n - 1].off->Some_0,
        )
    }
}

/// The times that have to be placed: the start, every change of tempo or time signature, and
/// where a note begins or ends.
pub open spec fn times_of(song: SongView) -> Seq<u64> {
    with_notes(
        with_points(
            with_points(seq![0u64], song.tempos, song.tempos.len() as int),
            song.signatures,
            song.signatures.len() as int,
        ),
        song.notes,
        song.notes.len() as int,
    )
}

proof fn lemma_with_points<V>(s: Seq<u64>, points: Seq<(u64, V)>, n: int)
    requires
        times_ascend(s),
        0 <= n <= points.len(),
        s.len() > 0,
        s[0] == 0,
    ensures
        times_ascend(with_points(s, points, n)),
        forall|k: int| 0 <= k < n ==> with_points(s, points, n).contains((#[trigger] points[k]).0),
        forall|t: u64| s.contains(t) ==> #[trigger] with_points(s, points, n).contains(t),
        with_points(s, points, n).len() > 0,
        with_points(s, points, n)[0] == 0,
    decreases n,
{
    if n > 0 {
        lemma_with_points(s, points, n - 1);
        let before = with_points(s, points, n - 1);
        let after = with_points(s, points, n);
        lemma_with_time(before, points[n - 1].0, 0);
        assert forall|k: int| 0 <= k < n implies after.contains((#[trigger] points[k]).0) by {
            lemma_with_time(before, points[n - 1].0, points[k].0);
        }
        assert forall|t: u64| s.contains(t) implies #[trigger] after.contains(t) by {
            lemma_with_time(before, points[n - 1].0, t);
            assert(before.contains(t));
        }
    }
}

proof fn lemma_with_notes(s: Seq<u64>, notes: Seq<MidiNote>, n: int)
    requires
        times_ascend(s),
        0 <= n <= notes.len(),
        s.len() > 0,
        s[0] == 0,
    ensures
        times_ascend(with_notes(s, notes, n)),
        forall|k: int|
            0 <= k < n ==> with_notes(s, notes, n).contains((#[trigger] notes[k]).on)
                && with_notes(s, notes, n).contains(notes[k].off->Some_0),
        forall|t: u64| s.contains(t) ==> #[trigger] with_notes(s, notes, n).contains(t),
        with_notes(s, notes, n).len() > 0,
        with_notes(s, notes, n)[0] == 0,
    decreases n,
{
    if n > 0 {
        lemma_with_notes(s, notes, n - 1);
        let before = with_notes(s, notes, n - 1);
        let on = notes[n - 1].on;
        let off = notes[n - 1].off->Some_0;
        let mid = with_time(before, on);
        let after = with_notes(s, notes, n);
        lemma_with_time(before, on, 0);
        lemma_with_time(mid, off, 0);
        assert forall|k: int| 0 <= k < n implies after.contains((#[trigger] notes[k]).on)
            && after.contains(notes[k].off->Some_0) by {
            lemma_with_time(before, on, notes[k].on);
            lemma_with_time(mid, off, notes[k].on);
            lemma_with_time(before, on, notes[k].off->Some_0);
            lemma_with_time(mid, off, notes[k].off->Some_0);
        }
        assert forall|t: u64| s.contains(t) implies #[trigger] after.contains(t) by {
            assert(before.contains(t));
            lemma_with_time(before, on, t);
            lemma_with_time(mid, off, t);
        }
    }
}

/// The times to place ascend from zero, and hold every time that the song speaks of.
pub proof fn lemma_times_of(song: SongView)
    ensures
        times_ascend(times_of(song)),
        times_of(song).len() > 0,
        times_of(song)[0] == 0,
        forall|k: int|
            0 <= k < song.notes.len() ==> times_of(song).contains((#[trigger] song.notes[k]).on)
                && times_of(song).contains(song.notes[k].off->Some_0),
        forall|k: int|
            0 <= k < song.signatures.len() ==> times_of(song).contains(
                (#[trigger] song.signatures[k]).0,
            ),
{
    let first = seq![0u64];
    lemma_with_points(first, song.tempos, song.tempos.len() as int);
    let second = with_points(first, song.tempos, song.tempos.len() as int);
    lemma_with_points(second, song.signatures, song.signatures.len() as int);
    let third = with_points(second, song.signatures, song.signatures.len() as int);
    lemma_with_notes(third, song.notes, song.notes.len() as int);
    assert forall|k: int| 0 <= k < song.signatures.len() implies times_of(song).contains(
        (#[trigger] song.signatures[k]).0,
    ) by {
        assert(third.contains(song.signatures[k].0));
    }
}

fn collect_times(song: &MidiSong) -> (times: Vec<u64>)
    requires
        forall|i: int| 0 <= i < song.notes.len() ==> (#[trigger] song.notes[i]).off is Some,
    ensures
        times@ == times_of(song@),
{
    let mut times: Vec<u64> = Vec::new();
    times.push(0);
    let ghost first = times@;
    let mut i: usize = 0;
    proof {
        assert(first =~= seq![0u64]);
    }
    while i < song.tempos.len()
        invariant
            i <= song.tempos.len(),
            times@ == with_points(first, song.tempos@, i as int),
        decreases song.tempos.len() - i,
    {
        insert_time(&mut times, song.tempos[i].0);
        i += 1;
    }
    let ghost second = times@;
    let mut i: usize = 0;
    while i < song.signatures.len()
        invariant
            i <= song.signatures.len(),
            times@ == with_points(second, song.signatures@, i as int),
        decreases song.signatures.len() - i,
    {
        insert_time(&mut times, song.signatures[i].0);
        i += 1;
    }
    let ghost third = times@;
    let mut i: usize = 0;
    while i < song.notes.len()
        invariant
            i <= song.notes.len(),
            forall|k: int| 0 <= k < song.notes.len() ==> (#[trigger] song.notes[k]).off is Some,
            times@ == with_notes(third, song.notes@, i as int),
        decreases song.notes.len() - i,
    {
        let note = song.notes[i];
        insert_time(&mut times, note.on);
        match note.off {
            Some(off) => {
                insert_time(&mut times, off);
            },
            None => {},
        }
        i += 1;
    }
    times
}

/// How many units a tick of a file takes, a million of which times the denominator make a
/// second.
pub open spec fn units_per_tick(timing: SmfTiming, micros: u32) -> int {
    match timing {
        SmfTiming::Metrical(_) => micros as int,
        SmfTiming::Timecode(rate, _) => if rate == 29 {
            1001000000
        } else {
            1000000
        },
    }
}

/// The ticks of a quarter note, or of the frames that the units are counted by.
pub open spec fn denominator(timing: SmfTiming) -> int {
    match timing {
        SmfTiming::Metrical(ppqn) => ppqn as int,
        SmfTiming::Timecode(rate, subframes) => (if rate == 29 {
            30000
        } else {
            rate as int
        }) * subframes,
    }
}

/// The whole number of beats per minute nearest to a duration of a quarter note, from 1 to
/// 255.
pub open spec fn bpm_of(micros: int) -> int {
    let nearest = (120000000 + micros) / (2 * micros);
    if nearest < 1 {
        1
    } else if nearest > 255 {
        255
    } else {
        nearest
    }
}

/// How far the times of a song have been placed.
#[verifier::ext_equal]
pub struct Placed {
    pub points: Seq<Tick>,
    pub tempos: Seq<Tempo>,
    pub target: Tick,
    pub bpm: i32,
    pub adjusted: int,
    pub units: int,
    pub last: u64,
    pub micros: u32,
}

pub open spec fn nothing_placed() -> Placed {
    Placed {
        points: Seq::empty(),
        tempos: seq![(0 as Tick, 120i32)],
        target: 0,
        bpm: 120,
        adjusted: 0,
        units: 0,
        last: 0,
        micros: 500000,
    }
}

/// Where the next time would fall exactly: whether that is in the range of a score, the
/// nearest tick, and whether it lies more than half the shortest length behind the tick that
/// was reached last.
#[derive(Clone, Copy, Debug)]
pub struct Spot {
    pub in_range: bool,
    pub rounded: Tick,
    pub over_half: bool,
}

/// The tick of the next time: the nearest one where the shortest length lies between, else
/// the shortest length on or not on at all, whichever is nearer.
pub open spec fn next_tick(target: int, spot: Spot) -> int {
    if spot.rounded - target >= 6 {
        spot.rounded as int
    } else if spot.over_half {
        target + 6
    } else {
        target
    }
}

/// The beat that a tempo sets at a time, where there is one.
pub open spec fn tempo_at_time(tempos: Seq<(u64, u32)>, t: u64) -> Option<u32>
    decreases tempos.len(),
{
    if tempos.len() == 0 {
        None
    } else if tempos.last().0 == t {
        Some(tempos.last().1)
    } else {
        tempo_at_time(tempos.drop_last(), t)
    }
}

/// The units from the start of a song to the next time.
pub open spec fn units_until(song: SongView, times: Seq<u64>, p: Placed) -> int {
    p.units + (times[p.points.len() as int] - p.last) * units_per_tick(song.timing, p.micros)
}

/// What placing the next time makes of what has been placed.
pub open spec fn placed_on(song: SongView, times: Seq<u64>, p: Placed, spot: Spot) -> Result<
    Placed,
    MidiFault,
> {
    let t = times[p.points.len() as int];
    let next = next_tick(p.target as int, spot);
    if !spot.in_range || next > 2147483653 {
        Err(MidiFault::TooLong)
    } else {
        let moved = Placed {
            points: p.points.push(next as Tick),
            target: next as Tick,
            adjusted: p.adjusted + (if next != spot.rounded {
                1int
            } else {
                0int
            }),
            units: units_until(song, times, p),
            last: t,
            ..p
        };
        Ok(
            match tempo_at_time(song.tempos, t) {
                Some(micros) => Placed {
                    micros,
                    bpm: bpm_of(micros as int) as i32,
                    tempos: with_tempo(
                        p.tempos,
                        (next as Tick, bpm_of(micros as int) as i32),
                    ),
                    ..moved
                },
                None => moved,
            },
        )
    }
}

/// Each time is placed at the tick of the one before it or at least the shortest length
/// behind, and the ticks do not go back.
pub proof fn law_placed_spacing(song: SongView, times: Seq<u64>, p: Placed, spot: Spot)
    requires
        placed_on(song, times, p, spot) is Ok,
        0 <= p.target <= 2147483653,
    ensures
        ({
            let next = placed_on(song, times, p, spot)->Ok_0.target;
            next == p.target || next >= p.target + 6
        }),
{
}

/// A song whose times are being placed on the ticks of a score.
#[derive(Debug)]
pub struct MidiImport {
    song: MidiSong,
    times: Vec<u64>,
    points: Vec<Tick>,
    tempos: Vec<Tempo>,
    target: Tick,
    bpm: i32,
    adjusted: usize,
    units: u128,
    last: u64,
    micros: u32,
}

/// When the next time comes: some units of which a million times the denominator make a
/// second, counted from the start; and the tick and beat that have been reached.
#[derive(Clone, Copy, Debug)]
pub struct Moment {
    pub units: u128,
    pub denominator: u128,
    pub target: Tick,
    pub bpm: i32,
}

/// Whether a timing is one that a file can have.
pub open spec fn is_timing(timing: SmfTiming) -> bool {
    match timing {
        SmfTiming::Metrical(ppqn) => ppqn > 0,
        SmfTiming::Timecode(rate, subframes) => subframes > 0 && (rate == 24 || rate == 25 || rate
            == 29 || rate == 30),
    }
}

impl MidiImport {
    /// The song that is being placed.
    pub closed spec fn song(&self) -> SongView {
        self.song@
    }

    /// How far its times have been placed.
    pub closed spec fn placed(&self) -> Placed {
        Placed {
            points: self.points@,
            tempos: self.tempos@,
            target: self.target,
            bpm: self.bpm,
            adjusted: self.adjusted as int,
            units: self.units as int,
            last: self.last,
            micros: self.micros,
        }
    }

    /// Whether the times are those of the song, and no number leaves the machine's range.
    pub closed spec fn well_formed(&self) -> bool {
        &&& self.times@ == times_of(self.song@)
        &&& self.points.len() <= self.times.len()
        &&& 0 <= self.target <= 2147483653
        &&& self.adjusted <= self.points.len()
        &&& self.units <= self.last * 4294967295
        &&& self.points.len() == 0 ==> self.last == 0
        &&& self.points.len() > 0 ==> self.last == self.times[self.points.len() - 1]
        &&& is_timing(self.song.timing)
        &&& forall|i: int|
            0 <= i < self.song.notes.len() ==> (#[trigger] self.song.notes[i]).off is Some
        &&& forall|i: int|
            0 <= i < self.points.len() ==> 0 <= #[trigger] self.points[i] <= self.target
        &&& forall|i: int, j: int|
            #![trigger self.points[i], self.points[j]]
            0 <= i <= j < self.points.len() ==> self.points[i] <= self.points[j]
        &&& self.song.notes.len() <= 1000000
        &&& forall|i: int| 0 <= i < self.song.tempos.len() ==> (#[trigger] self.song.tempos[i]).1 > 0
        &&& forall|i: int|
            0 <= i < self.song.notes.len() ==> (#[trigger] self.song.notes[i]).track
                < self.song.names.len()
    }

    /// Begins to place the times of a song.
    pub fn new(song: MidiSong) -> (r: Self)
        requires
            forall|i: int| 0 <= i < song.notes.len() ==> (#[trigger] song.notes[i]).off is Some,
            song.notes.len() <= 1000000,
            is_timing(song.timing),
            forall|i: int| 0 <= i < song.tempos.len() ==> (#[trigger] song.tempos[i]).1 > 0,
            forall|i: int|
                0 <= i < song.notes.len() ==> (#[trigger] song.notes[i]).track < song.names.len(),
        ensures
            r.song() == song@,
            r.placed() == nothing_placed(),
            r.well_formed(),
    {
        let times = collect_times(&song);
        let mut tempos: Vec<Tempo> = Vec::new();
        tempos.push((0, 120));
        proof {
            assert(tempos@ =~= nothing_placed().tempos);
        }
        MidiImport {
            song,
            times,
            points: Vec::new(),
            tempos,
            target: 0,
            bpm: 120,
            adjusted: 0,
            units: 0,
            last: 0,
            micros: 500000,
        }
    }

    fn factor(&self) -> (r: u128)
        ensures
            r == units_per_tick(self.song.timing, self.micros),
            r <= 4294967295,
    {
        match self.song.timing {
            SmfTiming::Metrical(_) => self.micros as u128,
            SmfTiming::Timecode(rate, _) => if rate == 29 {
                1001000000
            } else {
                1000000
            },
        }
    }

    fn reach(&self) -> (r: u128)
        requires
            self.well_formed(),
            self.points.len() < self.times.len(),
        ensures
            r == units_until(self.song(), times_of(self.song()), self.placed()),
            r <= self.times[self.points.len() as int] * 4294967295,
    {
        let t: u64 = self.times[self.points.len()];
        proof {
            lemma_times_of(self.song@);
            if self.points.len() > 0 {
                assert(self.times@[self.points.len() - 1] < self.times@[self.points.len() as int]);
            }
        }
        let delta: u64 = t - self.last;
        let factor = self.factor();
        proof {
            assert(delta * factor <= delta * 4294967295) by (nonlinear_arith)
                requires
                    0 <= factor <= 4294967295,
                    0 <= delta,
            ;
            assert(self.last * 4294967295 + delta * 4294967295 == t * 4294967295)
                by (nonlinear_arith)
                requires
                    delta == t - self.last,
            ;
            assert(t * 4294967295 <= 18446744073709551615 * 4294967295) by (nonlinear_arith)
                requires
                    t <= 18446744073709551615,
            ;
        }
        self.units + delta as u128 * factor
    }

    /// The ticks of the times that have been placed.
    pub fn ticks(&self) -> (r: &Vec<Tick>)
        ensures
            r@ == self.placed().points,
    {
        &self.points
    }

    /// The tempos that have been placed.
    pub fn beats(&self) -> (r: &Vec<Tempo>)
        ensures
            r@ == self.placed().tempos,
    {
        &self.tempos
    }

    /// The tick that has been reached.
    pub fn reached(&self) -> (r: Tick)
        ensures
            r == self.placed().target,
    {
        self.target
    }

    /// When the next time comes that has to be placed.
    pub fn next_moment(&self) -> (r: Option<Moment>)
        requires
            self.well_formed(),
        ensures
            match r {
                Some(moment) => self.placed().points.len() < times_of(self.song()).len()
                    && moment.units == units_until(
                    self.song(),
                    times_of(self.song()),
                    self.placed(),
                ) && moment.denominator == denominator(self.song().timing) && moment.denominator
                    > 0 && moment.target == self.placed().target && moment.bpm
                    == self.placed().bpm,
                None => self.placed().points.len() == times_of(self.song()).len(),
            },
    {
        if self.points.len() == self.times.len() {
            return None;
        }
        let denominator: u128 = match self.song.timing {
            SmfTiming::Metrical(ppqn) => ppqn as u128,
            SmfTiming::Timecode(rate, subframes) => {
                let frames: u128 = if rate == 29 {
                    30000
                } else {
                    rate as u128
                };
                proof {
                    assert(0 < frames * subframes <= 30000 * 255) by (nonlinear_arith)
                        requires
                            0 < frames <= 30000,
                            0 < subframes <= 255,
                    ;
                }
                frames * subframes as u128
            },
        };
        Some(Moment { units: self.reach(), denominator, target: self.target, bpm: self.bpm })
    }

    /// What has been placed, once every time has been.
    pub(crate) fn all_placed(&self) -> (r: Option<
        (&MidiSong, &Vec<u64>, &Vec<Tick>, &Vec<Tempo>, usize),
    >)
        requires
            self.well_formed(),
        ensures
            match r {
                Some((song, times, points, tempos, adjusted)) => {
                    let p = self.placed();
                    &&& song@ == self.song()
                    &&& times@ == times_of(self.song())
                    &&& points@ == p.points
                    &&& tempos@ == p.tempos
                    &&& adjusted == p.adjusted
                    &&& points.len() == times.len()
                    &&& forall|i: int|
                        0 <= i < song.notes.len() ==> (#[trigger] song.notes[i]).off is Some
                    &&& song.notes.len() <= 1000000
                    &&& forall|i: int|
                        0 <= i < points.len() ==> 0 <= #[trigger] points[i] <= 2147483653
                    &&& forall|i: int|
                        0 <= i < song.notes.len() ==> (#[trigger] song.notes[i]).track
                            < song.names.len()
                },
                None => self.placed().points.len() < times_of(self.song()).len(),
            },
    {
        if self.points.len() < self.times.len() {
            return None;
        }
        Some((&self.song, &self.times, &self.points, &self.tempos, self.adjusted))
    }

    /// Places the next time.
    pub fn place(&mut self, spot: Spot) -> (r: Result<(), MidiFault>)
        requires
            old(self).well_formed(),
            old(self).placed().points.len() < times_of(old(self).song()).len(),
        ensures
            final(self).song() == old(self).song(),
            final(self).well_formed(),
            match r {
                Ok(_) => placed_on(
                    old(self).song(),
                    times_of(old(self).song()),
                    old(self).placed(),
                    spot,
                ) == Ok::<_, MidiFault>(final(self).placed()),
                Err(e) => placed_on(
                    old(self).song(),
                    times_of(old(self).song()),
                    old(self).placed(),
                    spot,
                ) == Err::<Placed, _>(e) && final(self).placed() == old(self).placed(),
            },
    {
        let next: Tick = if spot.rounded as i128 - self.target as i128 >= 6 {
            spot.rounded
        } else if spot.over_half {
            self.target + 6
        } else {
            self.target
        };
        if !spot.in_range || next > 2147483653 {
            return Err(MidiFault::TooLong);
        }
        let ghost before = self.placed();
        let ghost song = self.song@;
        let t: u64 = self.times[self.points.len()];
        let units = self.reach();
        let ghost points = self.points@;
        self.points.push(next);
        if next != spot.rounded {
            self.adjusted = self.adjusted + 1;
        }
        self.units = units;
        self.last = t;
        self.target = next;
        proof {
            assert forall|a: int, b: int|
                #![trigger self.points[a], self.points[b]]
                0 <= a <= b < self.points.len() implies self.points[a] <= self.points[b] by {
                if b < points.len() {
                    assert(points[a] <= points[b]);
                } else if a < points.len() {
                    assert(points[a] <= before.target);
                }
            }
            assert forall|a: int| 0 <= a < self.points.len() implies 0
                <= #[trigger] self.points[a] <= self.target by {
                if a < points.len() {
                    assert(0 <= points[a] <= before.target);
                }
            }
        }
        match find_beat(&self.song.tempos, t) {
            Some(micros) => {
                let bpm = beats(micros);
                self.micros = micros;
                self.bpm = bpm;
                insert_tempo(&mut self.tempos, (next, bpm));
            },
            None => {},
        }
        Ok(())
    }
}

fn find_beat(tempos: &Vec<(u64, u32)>, t: u64) -> (r: Option<u32>)
    requires
        forall|i: int| 0 <= i < tempos.len() ==> (#[trigger] tempos[i]).1 > 0,
    ensures
        r == tempo_at_time(tempos@, t),
        r matches Some(micros) ==> micros > 0,
{
    let mut i: usize = tempos.len();
    proof {
        assert(tempos@.take(i as int) =~= tempos@);
    }
    while i > 0
        invariant
            i <= tempos.len(),
            forall|k: int| 0 <= k < tempos.len() ==> (#[trigger] tempos[k]).1 > 0,
            tempo_at_time(tempos@.take(i as int), t) == tempo_at_time(tempos@, t),
        decreases i,
    {
        proof {
            assert(tempos@.take(i as int).drop_last() =~= tempos@.take(i - 1));
            assert(tempos@.take(i as int).last() == tempos@[i - 1]);
        }
        if tempos[i - 1].0 == t {
            return Some(tempos[i - 1].1);
        }
        i -= 1;
    }
    None
}

/// The whole number of beats per minute nearest to a duration of a quarter note.
fn beats(micros: u32) -> (bpm: i32)
    requires
        micros > 0,
    ensures
        bpm == bpm_of(micros as int),
        1 <= bpm <= 255,
{
    let nearest: u64 = (120000000 + micros as u64) / (2 * micros as u64);
    if nearest < 1 {
        1
    } else if nearest > 255 {
        255
    } else {
        nearest as i32
    }
}

} // verus!
