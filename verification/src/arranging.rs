//! Notes that were chosen are put into parts and written as a score.
use crate::encode::{encode_slots, encoded, is_ensemble, slot_lists, slot_order, EncodeError, Ensemble};
use crate::checked::law_checked_notes;
use crate::fold::{analyze, analyzed, clipped_of, louder, shift_of, shift_volume, FoldStats, Gain, Layout, NoteFault, WorkingNote};
use crate::homes::{fails_first, houses, repack_tracks, tracks_packed};
use crate::packing::{is_plan, is_within, legacy_packed, legacy_repack, parts_of, repack, repacked, shares_out, strayed, Homes, PackError};
use crate::polyphony::voices;
use crate::reduce::{bare, cut_short, ends_of, fallen, is_reduced, reduce, reduction, standing, time_order};
use crate::score::{Note, Score, ScoreView};
use crate::spared::law_nothing_is_lost;
use vstd::prelude::*;

verus! {

/// Why notes cannot be arranged.
#[derive(Debug)]
pub enum ArrangeError {
    Pack(PackError),
    Encode(EncodeError),
}

/// Notes in parts, written as a score: the parts, the order in which they are written, how
/// many notes did not go where they belong, and whether the parts had to be filled plainly
/// for the score to be written.
#[derive(Debug)]
pub struct Arranged {
    pub score: Score,
    pub slots: Vec<Vec<usize>>,
    pub sequence: Vec<usize>,
    pub spill: usize,
    pub exact_fallback: bool,
}

/// Whether notes have gone into parts as the layout has it.
pub open spec fn is_packed(
    notes: Seq<Note>,
    kept: Seq<usize>,
    homes: Homes,
    e: Ensemble,
    legacy: bool,
    out: Seq<Seq<usize>>,
    spill: int,
) -> bool {
    if e.layout == Layout::Learned {
        tracks_packed(notes, kept, homes, e.parts as int, e.tracks as int, legacy, out, spill)
    } else if legacy {
        legacy_packed(notes, kept, homes) matches Ok((p, n)) && p.out == out && n == spill
    } else {
        repacked(notes, kept, homes) matches Ok(p) && p.out == out && strayed(
            p,
            homes.home@,
            kept,
            kept.len() as int,
        ) == spill
    }
}

/// Whether notes cannot be put into parts as the layout has it.
pub open spec fn pack_fails(
    notes: Seq<Note>,
    kept: Seq<usize>,
    homes: Homes,
    e: Ensemble,
    legacy: bool,
    fault: PackError,
) -> bool {
    if e.layout == Layout::Learned {
        exists|t: int|
            0 <= t < e.tracks && #[trigger] fails_first(
                notes,
                kept,
                homes,
                e.parts as int,
                t,
                legacy,
                fault,
            )
    } else if legacy {
        legacy_packed(notes, kept, homes) is Err && legacy_packed(notes, kept, homes)->Err_0
            == fault
    } else {
        repacked(notes, kept, homes) is Err && repacked(notes, kept, homes)->Err_0 == fault
    }
}

/// The parts that are tried first: those that are given, or else those that voices go on in.
pub open spec fn is_first(
    notes: Seq<Note>,
    kept: Seq<usize>,
    homes: Homes,
    e: Ensemble,
    given: Option<Seq<Seq<usize>>>,
    out: Seq<Seq<usize>>,
    spill: int,
) -> bool {
    match given {
        Some(slots) => out == slots && spill == 0,
        None => is_packed(notes, kept, homes, e, false, out, spill),
    }
}

/// Whether the parts that are tried first cannot be written.
pub open spec fn first_unwritable(
    notes: Seq<WorkingNote>,
    kept: Seq<usize>,
    homes: Homes,
    e: Ensemble,
    given: Option<Seq<Seq<usize>>>,
    score: ScoreView,
) -> bool {
    exists|out: Seq<Seq<usize>>, spill: int| #[trigger]
        is_first(bare(notes), kept, homes, e, given, out, spill) && encoded(
            notes,
            kept,
            out,
            score,
            e,
        ) is Err
}

pub open spec fn given_lists(given: Option<Vec<Vec<usize>>>) -> Option<Seq<Seq<usize>>> {
    match given {
        Some(slots) => Some(slot_lists(slots@)),
        None => None,
    }
}

fn bare_notes(notes: &Vec<WorkingNote>) -> (r: Vec<Note>)
    ensures
        r@ == bare(notes@),
{
    let mut r: Vec<Note> = Vec::new();
    let mut i: usize = 0;
    while i < notes.len()
        invariant
            i <= notes.len(),
            r.len() == i,
            forall|k: int| 0 <= k < i ==> #[trigger] r[k] == notes[k].note,
        decreases notes.len() - i,
    {
        r.push(notes[i].note);
        i += 1;
    }
    proof {
        assert(r@ =~= bare(notes@));
    }
    r
}

/// Whether all notes of a list have a home.
pub open spec fn all_housed(home: Seq<Option<usize>>, kept: Seq<usize>) -> bool {
    forall|k: int| 0 <= k < kept.len() ==> home[(#[trigger] kept[k]) as int] is Some
}

proof fn lemma_all_shared(notes: Seq<Note>, kept: Seq<usize>, homes: Homes, e: Ensemble, out: Seq<Seq<usize>>)
    requires
        is_plan(notes, kept, homes),
        is_ensemble(e),
        homes.centre.len() == e.tracks * e.parts,
        all_housed(homes.home@, kept),
        houses(homes.home@, kept, e.parts as int, e.tracks as int, out),
    ensures
        shares_out(kept, out),
{
    assert forall|k: int| 0 <= k < kept.len() implies crate::packing::is_in(
        out,
        #[trigger] kept[k],
    ) by {
        let i = kept[k] as int;
        assert(homes.home@[i] is Some);
        let slot = homes.home[i]->Some_0 as int;
        assert(slot < e.tracks * e.parts);
        assert(slot / (e.parts as int) < e.tracks) by (nonlinear_arith)
            requires
                0 <= slot < e.tracks * e.parts,
                e.parts > 0,
        ;
    }
}

fn pack(notes: &Vec<Note>, kept: &Vec<usize>, homes: &Homes, e: &Ensemble, legacy: bool) -> (r:
    Result<(Vec<Vec<usize>>, usize), PackError>)
    requires
        is_plan(notes@, kept@, *homes),
        is_ensemble(*e),
        homes.centre.len() == e.tracks * e.parts,
    ensures
        match r {
            Ok((out, spill)) => {
                &&& is_packed(notes@, kept@, *homes, *e, legacy, parts_of(out@), spill as int)
                &&& out.len() == e.tracks * e.parts
                &&& is_within(notes.len() as nat, parts_of(out@))
                &&& all_housed(homes.home@, kept@) ==> shares_out(kept@, parts_of(out@))
            },
            Err(fault) => pack_fails(notes@, kept@, *homes, *e, legacy, fault),
        },
{
    if e.layout == Layout::Learned {
        let r = repack_tracks(notes, kept, homes, e.tracks, e.parts, legacy);
        proof {
            if r is Ok && all_housed(homes.home@, kept@) {
                lemma_all_shared(notes@, kept@, *homes, *e, parts_of(r->Ok_0.0@));
            }
        }
        r
    } else if legacy {
        legacy_repack(notes, kept, homes)
    } else {
        repack(notes, kept, homes)
    }
}

/// The notes of a score with those that go on being played, as loud as they are to be, and how
/// many volumes had to be bounded.
#[derive(Debug)]
pub struct Picked {
    pub notes: Vec<WorkingNote>,
    pub kept: Vec<usize>,
    pub stats: FoldStats,
    pub clipped: usize,
}

/// The notes of a score that is thinned out to some voices.
pub open spec fn thinned_out(score: ScoreView, limit: int) -> Seq<WorkingNote> {
    let notes = analyzed(score.tracks, score.tracks.len() as int)->Ok_0;
    reduction(notes, ends_of(notes), time_order(notes), Seq::empty(), 0, limit)
}

/// Thins a score out until no more notes sound together than there are parts, and moves the
/// volume of what is kept. Where no more sound from the start, all is kept as it is.
pub fn pick_notes(score: &Score, limit: usize, gain: Gain) -> (r: Result<Picked, NoteFault>)
    ensures
        match r {
            Err(e) => analyzed(score@.tracks, score@.tracks.len() as int) == Err::<
                Seq<WorkingNote>,
                NoteFault,
            >(e),
            Ok(p) => {
                let start = analyzed(score@.tracks, score@.tracks.len() as int)->Ok_0;
                let thin = thinned_out(score@, limit as int);
                let n = start.len() as int;
                let shift = p.stats.volume_shift;
                &&& analyzed(score@.tracks, score@.tracks.len() as int) is Ok
                &&& thin.len() == n
                &&& p.kept@ == standing(thin, n)
                &&& shift == shift_of(thin, p.kept@, gain)
                &&& p.notes@ == louder(thin, p.kept@, shift as int, p.kept.len() as int)
                &&& p.clipped == clipped_of(thin, p.kept@, shift as int, p.kept.len() as int)
                &&& p.stats.total == n
                &&& p.stats.kept == p.kept.len()
                &&& p.stats.truncated == cut_short(thin, ends_of(start), n)
                &&& p.stats.dropped == fallen(thin, n)
                &&& p.stats.spill == 0
                &&& p.notes.len() == n
                &&& forall|t: int| #[trigger] voices(bare(thin), t) <= limit
                &&& forall|i: int|
                    0 <= i < p.notes.len() ==> 0 <= (#[trigger] p.notes[i]).note.vel <= 15
                &&& forall|k: int| 0 <= k < p.kept.len() ==> (#[trigger] p.kept[k]) < n
                &&& (forall|t: int| #[trigger] voices(score@.notes(), t) <= limit) ==> {
                    &&& thin == start
                    &&& p.kept@ == Seq::new(start.len(), |i: int| i as usize)
                    &&& p.stats.truncated == 0
                    &&& p.stats.dropped == 0
                }
            },
        },
{
    match analyze(score) {
        Err(e) => Err(e),
        Ok(notes) => {
            proof {
                law_checked_notes(score@);
            }
            let ghost start = notes@;
            let (mut notes, kept, mut stats) = reduce(notes, limit);
            proof {
                assert(start.len() <= usize::MAX);
                if forall|t: int| #[trigger] voices(score@.notes(), t) <= limit {
                    law_nothing_is_lost(start, limit as int);
                }
                assert forall|i: int| 0 <= i < notes.len() implies 0 <= (#[trigger] notes[i]).note.vel
                    <= 15 by {
                    assert(is_reduced(start[i], start[i].note.off, notes[i]));
                    assert(0 <= start[i].note.vel <= 15);
                }
            }
            let (shift, clipped): (i32, usize) = shift_volume(&mut notes, &kept, gain);
            stats.volume_shift = shift;
            Ok(Picked { notes, kept, stats, clipped })
        },
    }
}

/// Puts notes into parts and writes them as a score. Where the parts that are tried first
/// cannot be written, since a note or a silence in them is too short, the parts are filled
/// anew, each note where it belongs as far as that is free. Where all notes have a home, every
/// one of them goes to exactly one part.
pub fn arrange_slots(
    notes: &Vec<WorkingNote>,
    kept: &Vec<usize>,
    homes: &Homes,
    given: Option<Vec<Vec<usize>>>,
    score: &Score,
    ensemble: &Ensemble,
) -> (r: Result<Arranged, ArrangeError>)
    requires
        is_plan(bare(notes@), kept@, *homes),
        is_ensemble(*ensemble),
        homes.centre.len() == ensemble.tracks * ensemble.parts,
        forall|i: int| 0 <= i < notes.len() ==> 0 <= (#[trigger] notes[i]).note.vel <= 15,
        given matches Some(slots) ==> slots.len() == ensemble.tracks * ensemble.parts && is_within(
            notes.len() as nat,
            slot_lists(slots@),
        ),
    ensures
        match r {
            Ok(a) => {
                &&& encoded(notes@, kept@, slot_lists(a.slots@), score@, *ensemble) == Ok::<
                    _,
                    EncodeError,
                >(a.score@)
                &&& a.sequence@ == slot_order(notes@, slot_lists(a.slots@), ensemble.layout)
                &&& a.slots.len() == ensemble.tracks * ensemble.parts
                &&& is_within(notes.len() as nat, slot_lists(a.slots@))
                &&& all_housed(homes.home@, kept@) && (given is None || a.exact_fallback)
                    ==> shares_out(kept@, slot_lists(a.slots@))
                &&& if a.exact_fallback {
                    &&& first_unwritable(
                        notes@,
                        kept@,
                        *homes,
                        *ensemble,
                        given_lists(given),
                        score@,
                    )
                    &&& is_packed(
                        bare(notes@),
                        kept@,
                        *homes,
                        *ensemble,
                        true,
                        slot_lists(a.slots@),
                        a.spill as int,
                    )
                } else {
                    is_first(
                        bare(notes@),
                        kept@,
                        *homes,
                        *ensemble,
                        given_lists(given),
                        slot_lists(a.slots@),
                        a.spill as int,
                    )
                }
            },
            Err(ArrangeError::Pack(fault)) => {
                ||| given is None && pack_fails(
                    bare(notes@),
                    kept@,
                    *homes,
                    *ensemble,
                    false,
                    fault,
                )
                ||| first_unwritable(
                    notes@,
                    kept@,
                    *homes,
                    *ensemble,
                    given_lists(given),
                    score@,
                ) && pack_fails(bare(notes@), kept@, *homes, *ensemble, true, fault)
            },
            Err(ArrangeError::Encode(error)) => {
                &&& first_unwritable(
                    notes@,
                    kept@,
                    *homes,
                    *ensemble,
                    given_lists(given),
                    score@,
                )
                &&& exists|out: Seq<Seq<usize>>, spill: int| #[trigger]
                    is_packed(bare(notes@), kept@, *homes, *ensemble, true, out, spill) && encoded(
                        notes@,
                        kept@,
                        out,
                        score@,
                        *ensemble,
                    ) == Err::<ScoreView, _>(error)
            },
        },
{
    let plain = bare_notes(notes);
    let ghost lists = given_lists(given);
    let (slots, spill): (Vec<Vec<usize>>, usize) = match given {
        Some(slots) => (slots, 0),
        None => match pack(&plain, kept, homes, ensemble, false) {
            Ok(found) => found,
            Err(fault) => return Err(ArrangeError::Pack(fault)),
        },
    };
    let ghost first = slot_lists(slots@);
    proof {
        assert(parts_of(slots@) =~= first);
        assert(is_first(bare(notes@), kept@, *homes, *ensemble, lists, first, spill as int));
    }
    match encode_slots(notes, kept, &slots, score, ensemble) {
        Ok((output, sequence)) => Ok(
            Arranged { score: output, slots, sequence, spill, exact_fallback: false },
        ),
        Err(_) => {
            proof {
                assert(first_unwritable(notes@, kept@, *homes, *ensemble, lists, score@));
            }
            let (slots, spill): (Vec<Vec<usize>>, usize) = match pack(
                &plain,
                kept,
                homes,
                ensemble,
                true,
            ) {
                Ok(found) => found,
                Err(fault) => return Err(ArrangeError::Pack(fault)),
            };
            let ghost second = slot_lists(slots@);
            proof {
                assert(parts_of(slots@) =~= second);
                assert(is_packed(
                    bare(notes@),
                    kept@,
                    *homes,
                    *ensemble,
                    true,
                    second,
                    spill as int,
                ));
            }
            match encode_slots(notes, kept, &slots, score, ensemble) {
                Ok((output, sequence)) => Ok(
                    Arranged { score: output, slots, sequence, spill, exact_fallback: true },
                ),
                Err(error) => Err(ArrangeError::Encode(error)),
            }
        },
    }
}

} // verus!
