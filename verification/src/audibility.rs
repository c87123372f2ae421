//! Which tracks and parts are heard, and with which instruments.
use crate::instruments::Instrument;
use crate::score::Score;
use vstd::prelude::*;

verus! {

/// Which tracks and parts are switched on, each for itself, and the instrument of each part.
pub struct Audibility {
    tracks: Vec<bool>,
    parts: Vec<Vec<bool>>,
    instruments: Vec<Vec<Instrument>>,
}

impl Audibility {
    /// The switches of the tracks.
    pub closed spec fn switches(self) -> Seq<bool> {
        self.tracks@
    }

    /// The switches of the parts.
    pub closed spec fn part_switches(self) -> Seq<Seq<bool>> {
        Seq::new(self.parts@.len(), |i: int| self.parts@[i]@)
    }

    /// The instruments of the parts.
    pub closed spec fn choices(self) -> Seq<Seq<Instrument>> {
        Seq::new(self.instruments@.len(), |i: int| self.instruments@[i]@)
    }

    /// Switches every part of a score on and gives it a piano.
    pub fn all(score: &Score) -> (a: Self)
        ensures
            a.switches() == Seq::new(score@.tracks.len(), |i: int| true),
            a.part_switches() == Seq::new(
                score@.tracks.len(),
                |i: int| Seq::new(score@.tracks[i].parts.len(), |k: int| true),
            ),
            a.choices() == Seq::new(
                score@.tracks.len(),
                |i: int| Seq::new(score@.tracks[i].parts.len(), |k: int| Instrument::Piano),
            ),
    {
        let mut tracks: Vec<bool> = Vec::new();
        let mut parts: Vec<Vec<bool>> = Vec::new();
        let mut instruments: Vec<Vec<Instrument>> = Vec::new();
        let mut i: usize = 0;
        while i < score.tracks.len()
            invariant
                i <= score.tracks.len(),
                tracks.len() == i,
                parts.len() == i,
                instruments.len() == i,
                forall|k: int| 0 <= k < i ==> #[trigger] tracks[k],
                forall|k: int|
                    0 <= k < i ==> (#[trigger] parts[k])@ == Seq::new(
                        score@.tracks[k].parts.len(),
                        |j: int| true,
                    ),
                forall|k: int|
                    0 <= k < i ==> (#[trigger] instruments[k])@ == Seq::new(
                        score@.tracks[k].parts.len(),
                        |j: int| Instrument::Piano,
                    ),
            decreases score.tracks.len() - i,
        {
            let n = score.tracks[i].parts.len();
            let mut on: Vec<bool> = Vec::new();
            let mut kinds: Vec<Instrument> = Vec::new();
            let mut p: usize = 0;
            while p < n
                invariant
                    p <= n,
                    on.len() == p,
                    kinds.len() == p,
                    forall|k: int| 0 <= k < p ==> #[trigger] on[k],
                    forall|k: int| 0 <= k < p ==> #[trigger] kinds[k] == Instrument::Piano,
                decreases n - p,
            {
                on.push(true);
                kinds.push(Instrument::Piano);
                p += 1;
            }
            proof {
                assert(on@ =~= Seq::new(score@.tracks[i as int].parts.len(), |j: int| true));
                assert(kinds@ =~= Seq::new(
                    score@.tracks[i as int].parts.len(),
                    |j: int| Instrument::Piano,
                ));
            }
            tracks.push(true);
            parts.push(on);
            instruments.push(kinds);
            i += 1;
        }
        let a = Audibility { tracks, parts, instruments };
        proof {
            assert(a.switches() =~= Seq::new(score@.tracks.len(), |i: int| true));
            assert(a.part_switches() =~= Seq::new(
                score@.tracks.len(),
                |i: int| Seq::new(score@.tracks[i].parts.len(), |k: int| true),
            ));
            assert(a.choices() =~= Seq::new(
                score@.tracks.len(),
                |i: int| Seq::new(score@.tracks[i].parts.len(), |k: int| Instrument::Piano),
            ));
        }
        a
    }

    /// Whether a track is switched on.
    pub fn track_enabled(&self, track: usize) -> (r: bool)
        ensures
            r == (track < self.switches().len() && self.switches()[track as int]),
    {
        track < self.tracks.len() && self.tracks[track]
    }

    /// Whether a part is switched on, whatever its track is.
    pub fn part_enabled(&self, track: usize, part: usize) -> (r: bool)
        ensures
            r == (track < self.part_switches().len() && part < self.part_switches()[track as int].len()
                && self.part_switches()[track as int][part as int]),
    {
        track < self.parts.len() && part < self.parts[track].len() && self.parts[track][part]
    }

    /// Whether a part is heard: it and its track are switched on.
    pub fn enabled(&self, track: usize, part: usize) -> (r: bool)
        ensures
            r == (track < self.switches().len() && self.switches()[track as int] && track
                < self.part_switches().len() && part < self.part_switches()[track as int].len()
                && self.part_switches()[track as int][part as int]),
    {
        self.track_enabled(track) && self.part_enabled(track, part)
    }

    /// The instrument of a part; a piano where there is no such part.
    pub fn part_instrument(&self, track: usize, part: usize) -> (r: Instrument)
        ensures
            r == (if track < self.choices().len() && part < self.choices()[track as int].len() {
                self.choices()[track as int][part as int]
            } else {
                Instrument::Piano
            }),
    {
        if track < self.instruments.len() && part < self.instruments[track].len() {
            self.instruments[track][part]
        } else {
            Instrument::Piano
        }
    }

    /// Gives a part an instrument; tells whether it had another.
    pub fn set_part_instrument(&mut self, track: usize, part: usize, instrument: Instrument) -> (r: bool)
        ensures
            r == (track < old(self).choices().len() && part < old(
                self,
            ).choices()[track as int].len() && old(self).choices()[track as int][part as int]
                != instrument),
            final(self).switches() == old(self).switches(),
            final(self).part_switches() == old(self).part_switches(),
            final(self).choices() == (if r {
                old(self).choices().update(
                    track as int,
                    old(self).choices()[track as int].update(part as int, instrument),
                )
            } else {
                old(self).choices()
            }),
    {
        let ghost before = self.choices();
        if track < self.instruments.len() && part < self.instruments[track].len()
            && self.instruments[track][part] != instrument {
            self.instruments[track].set(part, instrument);
            proof {
                assert(self.choices() =~= before.update(
                    track as int,
                    before[track as int].update(part as int, instrument),
                ));
            }
            true
        } else {
            false
        }
    }

    /// Switches a track on or off and leaves its parts as they are; tells whether that
    /// changed anything.
    pub fn set_track_enabled(&mut self, track: usize, enabled: bool) -> (r: bool)
        ensures
            r == (track < old(self).switches().len() && old(self).switches()[track as int]
                != enabled),
            final(self).part_switches() == old(self).part_switches(),
            final(self).choices() == old(self).choices(),
            final(self).switches() == (if r {
                old(self).switches().update(track as int, enabled)
            } else {
                old(self).switches()
            }),
    {
        if track < self.tracks.len() && self.tracks[track] != enabled {
            self.tracks.set(track, enabled);
            true
        } else {
            false
        }
    }

    /// Switches a part on or off, whatever its track is; tells whether that changed
    /// anything.
    pub fn set_part_enabled(&mut self, track: usize, part: usize, enabled: bool) -> (r: bool)
        ensures
            r == (track < old(self).part_switches().len() && part < old(
                self,
            ).part_switches()[track as int].len() && old(
                self,
            ).part_switches()[track as int][part as int] != enabled),
            final(self).switches() == old(self).switches(),
            final(self).choices() == old(self).choices(),
            final(self).part_switches() == (if r {
                old(self).part_switches().update(
                    track as int,
                    old(self).part_switches()[track as int].update(part as int, enabled),
                )
            } else {
                old(self).part_switches()
            }),
    {
        let ghost before = self.part_switches();
        if track < self.parts.len() && part < self.parts[track].len() && self.parts[track][part]
            != enabled {
            self.parts[track].set(part, enabled);
            proof {
                assert(self.part_switches() =~= before.update(
                    track as int,
                    before[track as int].update(part as int, enabled),
                ));
            }
            true
        } else {
            false
        }
    }
}

} // verus!
