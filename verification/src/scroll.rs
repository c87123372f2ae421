//! Scrolls: a score between two ticks, and the searches for the tick at which one ends.
use crate::chunk::{
    all_within, chunk_fault, chunk_fits, chunk_texts, encode_chunk_parts, fits, lemma_all_within,
    local_tempos, rebase_tempos, text_views, text_widths, widths_of, within, ChunkError,
};
use crate::cuts::{gaps, gaps_of, is_barred, is_legal, legal_ticks, lemma_legal_count, lemma_legal_ticks, LegalCuts};
use crate::frame::{chunk_head, chunk_tail, make_head, make_tail, signature_views, signatures, signatures_of};
use crate::lengths::LengthTable;
use crate::meta::Meta;
use crate::mmi::{track_from_mml, track_of, TrackError};
use crate::order::{keep, lemma_order_sorts, lemma_stable_sort, order, stable_sort, Key};
use crate::score::{track_views, Note, Score, ScoreView, Tempo, Tick, Track, TrackView};
use crate::text::{chars_of, join_strings, joined, number_text, push_chars, push_count, push_text, signed_decimal, string_of, string_views};
use crate::writer::EmitError;
use vstd::prelude::*;

verus! {

/// How many characters a part may have, and which silences are worth cutting at.
#[derive(Clone, Copy, Debug)]
pub struct SplitOptions {
    pub limit: usize,
    pub min_gap: Tick,
    pub big_gap: Tick,
}

impl Default for SplitOptions {
    fn default() -> (options: Self)
        ensures
            options.limit == 2400,
            options.min_gap == 24,
            options.big_gap == 96,
    {
        SplitOptions { limit: 2400, min_gap: 24, big_gap: 96 }
    }
}

/// Why a score cannot be cut into scrolls.
#[derive(Clone, Copy, Debug, PartialEq, Eq, Structural)]
pub enum SplitError {
    NoLimit,
    NegativeGap,
    EmptyScore,
    TooLong,
    InvalidNote,
    NegativeTempo,
    Unencodable { error: ChunkError, end: Tick },
    NoCutLeft { tick: Tick },
    EventTooWide { tick: Tick, limit: usize },
    NothingFits { tick: Tick, limit: usize },
    Chunk { error: ChunkError, start: Tick, end: Tick },
    Part { cause: EmitError },
    Stuck { tick: Tick },
    OverLimit { start: Tick, end: Tick, limit: usize },
    Track { fault: TrackError },
    EventOverLimit,
}

pub open spec fn capped(n: int) -> int {
    if n > usize::MAX {
        usize::MAX as int
    } else {
        n
    }
}

/// The characters that some tempos take.
pub open spec fn tempo_width(tempos: Seq<Tempo>) -> int
    decreases tempos.len(),
{
    if tempos.len() == 0 {
        0
    } else {
        capped(
            tempo_width(tempos.drop_last()) + 1 + signed_decimal(tempos.last().1 as int).len(),
        )
    }
}

/// The characters that what sounds of a note between two ticks takes at least: a letter for
/// every dotted whole note that it is longer, and a tie before each but the first.
pub open spec fn note_width(note: Note, a: int, b: int) -> int {
    let on = if note.on < a {
        a
    } else {
        note.on as int
    };
    let off = if note.off > b {
        b
    } else {
        note.off as int
    };
    if off - on > 0 {
        let atoms = 1 + (off - on - 1) / 576;
        capped(
            2 * (if atoms > usize::MAX {
                usize::MAX as int / 2
            } else {
                atoms
            }),
        ) - 1
    } else {
        0
    }
}

/// The characters that some notes take between two ticks at least.
pub open spec fn notes_width(notes: Seq<Note>, a: int, b: int) -> int
    decreases notes.len(),
{
    if notes.len() == 0 {
        0
    } else {
        capped(notes_width(notes.drop_last(), a, b) + note_width(notes.last(), a, b))
    }
}

/// The greatest of what the first parts of a track take at least.
pub open spec fn parts_width(parts: Seq<Seq<Note>>, n: int, tempos: int, a: int, b: int) -> int
    decreases n,
{
    if n <= 0 {
        0
    } else {
        let before = parts_width(parts, n - 1, tempos, a, b);
        let own = capped(
            notes_width(parts[n - 1], a, b) + (if n == 1 {
                tempos
            } else {
                0
            }),
        );
        if before < own {
            own
        } else {
            before
        }
    }
}

/// The greatest of what the parts of the first tracks take at least.
pub open spec fn tracks_width(score: ScoreView, n: int, tempos: int, a: int, b: int) -> int
    decreases n,
{
    if n <= 0 {
        0
    } else {
        let parts = score.tracks[n - 1].parts;
        let before = tracks_width(score, n - 1, tempos, a, b);
        let own = parts_width(parts, parts.len() as int, tempos, a, b);
        if before < own {
            own
        } else {
            before
        }
    }
}

/// The number of characters that the widest part between two ticks takes at least.
pub open spec fn least_width(score: ScoreView, tempos: Seq<Tempo>, a: int, b: int) -> int {
    tracks_width(
        score,
        score.tracks.len() as int,
        tempo_width(local_tempos(tempos, a, b)),
        a,
        b,
    )
}

fn digits(v: i32) -> (n: usize)
    ensures
        n == signed_decimal(v as int).len(),
{
    let mut out: Vec<u8> = Vec::new();
    crate::text::push_signed(&mut out, v as i64);
    proof {
        assert(out@ =~= signed_decimal(v as int));
    }
    out.len()
}

/// The number of characters that the widest part between two ticks takes at least.
pub(crate) fn width_lower_bound(score: &Score, tempos: &[Tempo], a: Tick, b: Tick) -> (width: usize)
    requires
        0 <= a <= b,
    ensures
        width == least_width(score@, tempos@, a as int, b as int),
{
    let local = rebase_tempos(tempos, a, b);
    let mut leading: usize = 0;
    let mut i: usize = 0;
    proof {
        assert(local@.take(0) =~= Seq::<Tempo>::empty());
    }
    while i < local.len()
        invariant
            i <= local.len(),
            leading == tempo_width(local@.take(i as int)),
        decreases local.len() - i,
    {
        proof {
            assert(local@.take(i + 1).drop_last() =~= local@.take(i as int));
        }
        leading = leading.saturating_add(1).saturating_add(digits(local[i].1));
        i += 1;
    }
    proof {
        assert(local@.take(i as int) =~= local@);
    }
    let ghost view = score@;
    let mut widest: usize = 0;
    let mut ti: usize = 0;
    while ti < score.tracks.len()
        invariant
            ti <= score.tracks.len(),
            0 <= a <= b,
            view == score@,
            widest == tracks_width(view, ti as int, leading as int, a as int, b as int),
        decreases score.tracks.len() - ti,
    {
        let parts = &score.tracks[ti].parts;
        let ghost lists = view.tracks[ti as int].parts;
        let mut own: usize = 0;
        let mut pi: usize = 0;
        while pi < parts.len()
            invariant
                ti < score.tracks.len(),
                parts == &score.tracks[ti as int].parts,
                view == score@,
                lists == view.tracks[ti as int].parts,
                pi <= parts.len(),
                0 <= a <= b,
                own == parts_width(lists, pi as int, leading as int, a as int, b as int),
            decreases parts.len() - pi,
        {
            let notes = &parts[pi];
            let mut sum: usize = 0;
            let mut k: usize = 0;
            proof {
                assert(notes@.take(0) =~= Seq::<Note>::empty());
                assert(lists[pi as int] == notes@);
            }
            while k < notes.len()
                invariant
                    k <= notes.len(),
                    0 <= a <= b,
                    sum == notes_width(notes@.take(k as int), a as int, b as int),
                decreases notes.len() - k,
            {
                let note = notes[k];
                proof {
                    assert(notes@.take(k + 1).drop_last() =~= notes@.take(k as int));
                }
                let on: Tick = if note.on < a {
                    a
                } else {
                    note.on
                };
                let off: Tick = if note.off > b {
                    b
                } else {
                    note.off
                };
                if off > on {
                    let atoms: u64 = (1 + (off - on - 1) / 576) as u64;
                    let count: usize = if atoms > usize::MAX as u64 {
                        usize::MAX / 2
                    } else {
                        atoms as usize
                    };
                    sum = sum.saturating_add(count.saturating_add(count) - 1);
                }
                k += 1;
            }
            proof {
                assert(notes@.take(k as int) =~= notes@);
            }
            let with_tempos: usize = if pi == 0 {
                sum.saturating_add(leading)
            } else {
                sum
            };
            proof {
                lemma_notes_width(notes@, a as int, b as int);
            }
            if own < with_tempos {
                own = with_tempos;
            }
            pi += 1;
        }
        if widest < own {
            widest = own;
        }
        ti += 1;
    }
    widest
}

proof fn lemma_notes_width(notes: Seq<Note>, a: int, b: int)
    ensures
        notes_width(notes, a, b) <= usize::MAX,
{
}

/// A search by halves for the first rank from which a score is too wide for sure.
pub open spec fn first_too_wide(
    score: ScoreView,
    tempos: Seq<Tempo>,
    cuts: Seq<int>,
    a: int,
    limit: int,
    lo: int,
    hi: int,
) -> int
    decreases hi - lo,
{
    if lo >= hi {
        lo
    } else {
        let mid = lo + (hi - lo) / 2;
        if least_width(score, tempos, a, cuts[mid]) <= limit {
            first_too_wide(score, tempos, cuts, a, limit, mid + 1, hi)
        } else {
            first_too_wide(score, tempos, cuts, a, limit, lo, mid)
        }
    }
}

/// Whether every part fits between two ticks, with the ticks at hand where it cannot be said.
pub open spec fn fits_between(
    score: ScoreView,
    tempos: Seq<Tempo>,
    a: int,
    b: int,
    limit: int,
) -> Result<bool, SplitError> {
    match chunk_fits(score, tempos, a, b, false, limit) {
        Ok(r) => Ok(r),
        Err(error) => Err(SplitError::Chunk { error, start: a as Tick, end: b as Tick }),
    }
}

/// The furthest cut below a rank that is open and fits, looking backwards from it.
pub open spec fn last_fitting(
    score: ScoreView,
    tempos: Seq<Tempo>,
    cuts: Seq<int>,
    a: int,
    limit: int,
    dead: Set<int>,
    first: int,
    rank: int,
) -> Result<int, SplitError>
    decreases rank - first,
{
    if rank <= first {
        Err(SplitError::NothingFits { tick: a as Tick, limit: limit as usize })
    } else {
        let tick = cuts[rank - 1];
        if dead.contains(tick) {
            last_fitting(score, tempos, cuts, a, limit, dead, first, rank - 1)
        } else {
            match fits_between(score, tempos, a, tick, limit) {
                Err(e) => Err(e),
                Ok(true) => Ok(tick),
                Ok(false) => last_fitting(score, tempos, cuts, a, limit, dead, first, rank - 1),
            }
        }
    }
}

/// The nearest cut from a rank on that is open and fits.
pub open spec fn next_fitting(
    score: ScoreView,
    tempos: Seq<Tempo>,
    cuts: Seq<int>,
    a: int,
    limit: int,
    dead: Set<int>,
    rank: int,
    upper: int,
) -> Result<int, SplitError>
    decreases upper - rank,
{
    if rank >= upper {
        Err(SplitError::NothingFits { tick: a as Tick, limit: limit as usize })
    } else {
        let tick = cuts[rank];
        if dead.contains(tick) {
            next_fitting(score, tempos, cuts, a, limit, dead, rank + 1, upper)
        } else {
            match fits_between(score, tempos, a, tick, limit) {
                Err(e) => Err(e),
                Ok(true) => Ok(tick),
                Ok(false) => next_fitting(score, tempos, cuts, a, limit, dead, rank + 1, upper),
            }
        }
    }
}

/// A search by halves for a far cut that fits; of those tried, the last that is open counts.
pub open spec fn halved_fitting(
    score: ScoreView,
    tempos: Seq<Tempo>,
    cuts: Seq<int>,
    a: int,
    limit: int,
    dead: Set<int>,
    lo: int,
    hi: int,
    best: Option<int>,
) -> Result<Option<int>, SplitError>
    decreases hi - lo,
{
    if lo >= hi {
        Ok(best)
    } else {
        let mid = lo + (hi - lo) / 2;
        let tick = cuts[mid];
        match fits_between(score, tempos, a, tick, limit) {
            Err(e) => Err(e),
            Ok(true) => halved_fitting(
                score,
                tempos,
                cuts,
                a,
                limit,
                dead,
                mid + 1,
                hi,
                if dead.contains(tick) {
                    best
                } else {
                    Some(tick)
                },
            ),
            Ok(false) => halved_fitting(score, tempos, cuts, a, limit, dead, lo, mid, best),
        }
    }
}

/// The cuts of a score in ascending order.
pub open spec fn cuts_of(score: ScoreView, tempos: Seq<Tempo>, total: int) -> Seq<int> {
    legal_ticks(|t: int| is_barred(score, tempos, total, t), total, total)
}

/// The number of cuts of a score up to a tick.
pub open spec fn cuts_until(score: ScoreView, tempos: Seq<Tempo>, total: int, tick: int) -> int {
    legal_ticks(
        |t: int| is_barred(score, tempos, total, t),
        total,
        if tick < total {
            tick
        } else {
            total
        },
    ).len() as int
}

/// The furthest cut behind a tick up to which every part fits, as far as the search goes: an
/// exact search looks at every cut.
pub open spec fn furthest(
    score: ScoreView,
    tempos: Seq<Tempo>,
    total: int,
    a: int,
    limit: int,
    dead: Set<int>,
    exact: bool,
) -> Result<int, SplitError> {
    let cuts = cuts_of(score, tempos, total);
    let first = cuts_until(score, tempos, total, a + 5);
    let upper = first_too_wide(score, tempos, cuts, a, limit, first, cuts.len() as int);
    if first >= cuts.len() {
        Err(SplitError::NoCutLeft { tick: a as Tick })
    } else if first >= upper {
        Err(SplitError::EventTooWide { tick: a as Tick, limit: limit as usize })
    } else {
        let last = cuts[upper - 1];
        let direct = if dead.contains(last) {
            Ok(false)
        } else {
            fits_between(score, tempos, a, last, limit)
        };
        match direct {
            Err(e) => Err(e),
            Ok(true) => Ok(last),
            Ok(false) => if exact {
                last_fitting(score, tempos, cuts, a, limit, dead, first, upper)
            } else {
                match halved_fitting(score, tempos, cuts, a, limit, dead, first, upper, None) {
                    Err(e) => Err(e),
                    Ok(Some(tick)) => Ok(tick),
                    Ok(None) => next_fitting(
                        score,
                        tempos,
                        cuts,
                        a,
                        limit,
                        dead,
                        first,
                        upper,
                    ),
                }
            },
        }
    }
}

pub(crate) fn is_dead(dead: &Vec<Tick>, tick: Tick) -> (r: bool)
    ensures
        r == ticks_set(dead@).contains(tick as int),
{
    let mut i: usize = 0;
    while i < dead.len()
        invariant
            i <= dead.len(),
            forall|k: int| 0 <= k < i ==> #[trigger] dead@[k] != tick,
        decreases dead.len() - i,
    {
        if dead[i] == tick {
            proof {
                assert(dead@[i as int] as int == tick as int);
            }
            return true;
        }
        i += 1;
    }
    false
}

/// The ticks of a list.
pub open spec fn ticks_set(s: Seq<Tick>) -> Set<int> {
    Set::new(|t: int| exists|i: int| 0 <= i < s.len() && #[trigger] s[i] == t)
}

fn fits_lossless(
    score: &Score,
    tempos: &[Tempo],
    a: Tick,
    b: Tick,
    limit: usize,
    table: &LengthTable,
) -> (r: Result<bool, SplitError>)
    requires
        0 <= a <= b,
        table.well_formed(),
    ensures
        r == fits_between(score@, tempos@, a as int, b as int, limit as int),
{
    match fits(score, tempos, a, b, false, limit, table) {
        Ok(r) => Ok(r),
        Err(error) => Err(SplitError::Chunk { error, start: a, end: b }),
    }
}

/// Finds the furthest cut behind a tick up to which every part fits.
pub(crate) fn furthest_fitting(
    score: &Score,
    tempos: &[Tempo],
    cuts: &LegalCuts,
    total: Tick,
    a: Tick,
    limit: usize,
    dead: &Vec<Tick>,
    exact: bool,
    table: &LengthTable,
) -> (r: Result<Tick, SplitError>)
    requires
        table.well_formed(),
        cuts.describes(|t: int| is_barred(score@, tempos@, total as int, t), total as int),
        1 <= total < i64::MAX - 6,
        0 <= a < total,
    ensures
        match r {
            Ok(tick) => furthest(
                score@,
                tempos@,
                total as int,
                a as int,
                limit as int,
                ticks_set(dead@),
                exact,
            ) == Ok::<int, SplitError>(tick as int) && a < tick <= total && !ticks_set(
                dead@,
            ).contains(tick as int),
            Err(e) => furthest(
                score@,
                tempos@,
                total as int,
                a as int,
                limit as int,
                ticks_set(dead@),
                exact,
            ) == Err::<int, SplitError>(e),
        },
{
    let ghost barred = |t: int| is_barred(score@, tempos@, total as int, t);
    let ghost all = cuts_of(score@, tempos@, total as int);
    let ghost gone = ticks_set(dead@);
    let count = cuts.len(Ghost(barred), Ghost(total as int));
    let first = cuts.first_after(a + 5, Ghost(barred), Ghost(total as int));
    if first >= count {
        return Err(SplitError::NoCutLeft { tick: a });
    }
    proof {
        lemma_legal_ticks(barred, total as int, total as int);
        assert forall|k: int| first <= k < all.len() implies a < #[trigger] all[k] <= total by {
            lemma_legal_count(
                barred,
                total as int,
                if a + 5 < total {
                    a + 5
                } else {
                    total as int
                },
                k,
            );
        }
    }
    let mut lo: Tick = first;
    let mut hi: Tick = count;
    while lo < hi
        invariant
            0 <= first <= lo <= hi <= count,
            count == all.len(),
            0 <= a < total,
            barred == (|t: int| is_barred(score@, tempos@, total as int, t)),
            all == cuts_of(score@, tempos@, total as int),
            cuts.describes(barred, total as int),
            forall|k: int| first <= k < all.len() ==> a < #[trigger] all[k] <= total,
            first_too_wide(
                score@,
                tempos@,
                all,
                a as int,
                limit as int,
                lo as int,
                hi as int,
            ) == first_too_wide(
                score@,
                tempos@,
                all,
                a as int,
                limit as int,
                first as int,
                count as int,
            ),
        decreases hi - lo,
    {
        let mid: Tick = lo + (hi - lo) / 2;
        let tick = cuts.tick(mid, Ghost(barred), Ghost(total as int));
        if width_lower_bound(score, tempos, a, tick) <= limit {
            lo = mid + 1;
        } else {
            hi = mid;
        }
    }
    let upper: Tick = lo;
    if first >= upper {
        return Err(SplitError::EventTooWide { tick: a, limit });
    }
    let last_tick = cuts.tick(upper - 1, Ghost(barred), Ghost(total as int));
    if !is_dead(dead, last_tick) {
        match fits_lossless(score, tempos, a, last_tick, limit, table) {
            Err(e) => {
                return Err(e);
            },
            Ok(fit) => {
                if fit {
                    return Ok(last_tick);
                }
            },
        }
    }
    let ghost goal = furthest(
        score@,
        tempos@,
        total as int,
        a as int,
        limit as int,
        gone,
        exact,
    );
    if exact {
        let mut rank: Tick = upper;
        while rank > first
            invariant
                0 <= first <= rank <= upper <= count,
                count == all.len(),
                0 <= a < total,
                table.well_formed(),
                barred == (|t: int| is_barred(score@, tempos@, total as int, t)),
                all == cuts_of(score@, tempos@, total as int),
                gone == ticks_set(dead@),
                cuts.describes(barred, total as int),
                forall|k: int| first <= k < all.len() ==> a < #[trigger] all[k] <= total,
                goal == furthest(
                    score@,
                    tempos@,
                    total as int,
                    a as int,
                    limit as int,
                    gone,
                    exact,
                ),
                goal == last_fitting(
                    score@,
                    tempos@,
                    all,
                    a as int,
                    limit as int,
                    gone,
                    first as int,
                    rank as int,
                ),
            decreases rank,
        {
            rank = rank - 1;
            let tick = cuts.tick(rank, Ghost(barred), Ghost(total as int));
            if !is_dead(dead, tick) {
                match fits_lossless(score, tempos, a, tick, limit, table) {
                    Err(e) => {
                        return Err(e);
                    },
                    Ok(fit) => {
                        if fit {
                            return Ok(tick);
                        }
                    },
                }
            }
        }
        return Err(SplitError::NothingFits { tick: a, limit });
    }
    let mut best: Option<Tick> = None;
    lo = first;
    hi = upper;
    let ghost searched = halved_fitting(
        score@,
        tempos@,
        all,
        a as int,
        limit as int,
        gone,
        first as int,
        upper as int,
        None,
    );
    while lo < hi
        invariant
            0 <= first <= lo <= hi <= upper <= count,
            count == all.len(),
            0 <= a < total,
            table.well_formed(),
            barred == (|t: int| is_barred(score@, tempos@, total as int, t)),
            all == cuts_of(score@, tempos@, total as int),
            gone == ticks_set(dead@),
            cuts.describes(barred, total as int),
            forall|k: int| first <= k < all.len() ==> a < #[trigger] all[k] <= total,
            best matches Some(t) ==> a < t <= total && !gone.contains(t as int),
            goal == furthest(
                score@,
                tempos@,
                total as int,
                a as int,
                limit as int,
                gone,
                exact,
            ),
            searched is Err ==> goal == Err::<int, SplitError>(searched->Err_0),
            searched == halved_fitting(
                score@,
                tempos@,
                all,
                a as int,
                limit as int,
                gone,
                lo as int,
                hi as int,
                match best {
                    Some(t) => Some(t as int),
                    None => None,
                },
            ),
        decreases hi - lo,
    {
        let mid: Tick = lo + (hi - lo) / 2;
        let tick = cuts.tick(mid, Ghost(barred), Ghost(total as int));
        match fits_lossless(score, tempos, a, tick, limit, table) {
            Err(e) => {
                return Err(e);
            },
            Ok(fit) => {
                if fit {
                    if !is_dead(dead, tick) {
                        best = Some(tick);
                    }
                    lo = mid + 1;
                } else {
                    hi = mid;
                }
            },
        }
    }
    match best {
        Some(tick) => {
            return Ok(tick);
        },
        None => {},
    }
    let mut rank: Tick = first;
    while rank < upper
        invariant
            0 <= first <= rank <= upper <= count,
            count == all.len(),
            0 <= a < total,
            table.well_formed(),
            barred == (|t: int| is_barred(score@, tempos@, total as int, t)),
            all == cuts_of(score@, tempos@, total as int),
            gone == ticks_set(dead@),
            cuts.describes(barred, total as int),
            forall|k: int| first <= k < all.len() ==> a < #[trigger] all[k] <= total,
            goal == furthest(
                score@,
                tempos@,
                total as int,
                a as int,
                limit as int,
                gone,
                exact,
            ),
            goal == next_fitting(
                score@,
                tempos@,
                all,
                a as int,
                limit as int,
                gone,
                rank as int,
                upper as int,
            ),
        decreases upper - rank,
    {
        let tick = cuts.tick(rank, Ghost(barred), Ghost(total as int));
        if !is_dead(dead, tick) {
            match fits_lossless(score, tempos, a, tick, limit, table) {
                Err(e) => {
                    return Err(e);
                },
                Ok(fit) => {
                    if fit {
                        return Ok(tick);
                    }
                },
            }
        }
        rank = rank + 1;
    }
    Err(SplitError::NothingFits { tick: a, limit })
}

/// The MML of a track: its parts between the opening and the closing mark.
pub open spec fn track_mml(texts: Seq<Seq<char>>) -> Seq<char> {
    "MML@"@ + joined(texts, ',') + ";"@
}

/// The value under a key, or nothing written where there is none.
pub open spec fn value_or_empty(meta: Seq<crate::meta::Entry>, key: Seq<char>) -> Seq<char> {
    match crate::meta::entry_of(meta, key) {
        Some(value) => value,
        None => Seq::empty(),
    }
}

/// The entries of a track that is numbered anew and keeps its sound and place.
pub open spec fn renumbered(meta: Seq<crate::meta::Entry>, index: int) -> Seq<
    crate::meta::Entry,
> {
    let named = crate::meta::with_entry(
        Seq::empty(),
        "name"@,
        "Track"@ + number_text(index + 1),
    );
    let sounding = crate::meta::with_entry(named, "program"@, value_or_empty(meta, "program"@));
    let singing = crate::meta::with_entry(
        sounding,
        "songProgram"@,
        value_or_empty(meta, "songProgram"@),
    );
    let placed = crate::meta::with_entry(singing, "panpot"@, value_or_empty(meta, "panpot"@));
    crate::meta::with_entry(placed, "visible"@, value_or_empty(meta, "visible"@))
}

/// The first tracks of a scroll.
pub open spec fn scroll_tracks(
    score: ScoreView,
    texts: Seq<Seq<Seq<char>>>,
    reference: bool,
    n: int,
) -> Result<Seq<TrackView>, TrackError>
    decreases n,
{
    if n <= 0 {
        Ok(Seq::empty())
    } else {
        match scroll_tracks(score, texts, reference, n - 1) {
            Err(e) => Err(e),
            Ok(before) => {
                let meta = score.tracks[n - 1].meta;
                match track_of(
                    track_mml(texts[n - 1]),
                    if reference {
                        renumbered(meta, n - 1)
                    } else {
                        meta
                    },
                    (n - 1) as usize,
                ) {
                    Err(e) => Err(e),
                    Ok(track) => Ok(before.push(track)),
                }
            },
        }
    }
}

/// What a scroll consists of.
#[verifier::ext_equal]
pub struct ScrollView {
    pub score: ScoreView,
    pub texts: Seq<Seq<Seq<char>>>,
    pub start: int,
    pub end: int,
    pub widths: Seq<int>,
    pub gap: int,
}

/// The length of the silence that begins at a tick.
pub open spec fn gap_at(gaps: Seq<(Tick, Tick)>, tick: int) -> int
    decreases gaps.len(),
{
    if gaps.len() == 0 {
        0
    } else if gaps.last().0 == tick {
        gaps.last().1 as int
    } else {
        gap_at(gaps.drop_last(), tick)
    }
}

/// The scroll between two ticks. One by the reference rules drops what is too short to write,
/// numbers its tracks anew and keeps no lines behind its tracks but the time signatures.
pub open spec fn scroll_of(
    score: ScoreView,
    tempos: Seq<Tempo>,
    a: int,
    b: int,
    limit: int,
    reference: bool,
) -> Result<ScrollView, SplitError> {
    let texts = chunk_texts(score, tempos, a, b, reference);
    let sigs = signatures_of(score.tail, score.tail.len() as int);
    match chunk_fault(score, tempos, 0, a, b, reference) {
        Some(error) => if reference {
            Err(SplitError::Part { cause: error.cause })
        } else {
            Err(SplitError::Chunk { error, start: a as Tick, end: b as Tick })
        },
        None => if !within(texts, limit) {
            Err(SplitError::OverLimit { start: a as Tick, end: b as Tick, limit: limit as usize })
        } else {
            match scroll_tracks(score, texts, reference, score.tracks.len() as int) {
                Err(fault) => Err(SplitError::Track { fault }),
                Ok(tracks) => Ok(
                    ScrollView {
                        score: ScoreView {
                            head: chunk_head(score.head, tempos, a, b),
                            tracks,
                            tail: if reference {
                                chunk_tail(Seq::empty(), sigs, a, b).push(Seq::empty())
                            } else {
                                chunk_tail(score.tail, sigs, a, b)
                            },
                        },
                        texts,
                        start: a,
                        end: b,
                        widths: widths_of(texts),
                        gap: gap_at(gaps_of(score.notes(), 1), b),
                    },
                ),
            }
        },
    }
}

/// A score between two ticks, the MML of its parts, and how wide they are.
#[derive(Debug)]
pub struct ScrollChunk {
    pub score: Score,
    pub mml_parts: Vec<Vec<String>>,
    pub game_parts: Vec<Vec<String>>,
    pub tempo_note_splits: usize,
    pub start: Tick,
    pub end: Tick,
    pub widths: Vec<usize>,
    pub gap: Tick,
}

/// Scrolls and a report on them.
#[derive(Debug)]
pub struct SplitResult {
    pub chunks: Vec<ScrollChunk>,
    pub report: String,
}

impl View for ScrollChunk {
    type V = ScrollView;

    open spec fn view(&self) -> ScrollView {
        ScrollView {
            score: self.score@,
            texts: text_views(self.mml_parts@),
            start: self.start as int,
            end: self.end as int,
            widths: self.widths@.map_values(|w: usize| w as int),
            gap: self.gap as int,
        }
    }
}

impl ScrollChunk {
    /// Whether the parts for the game are the parts as they are, and no note was split for a
    /// tempo.
    pub open spec fn is_plain(&self) -> bool {
        text_views(self.game_parts@) == text_views(self.mml_parts@) && self.tempo_note_splits == 0
    }
}

/// Scrolls as what they consist of.
pub open spec fn scroll_views(chunks: Seq<ScrollChunk>) -> Seq<ScrollView> {
    Seq::new(chunks.len(), |i: int| chunks[i]@)
}

/// Copies the texts of parts.
pub fn copy_texts(texts: &Vec<Vec<String>>) -> (r: Vec<Vec<String>>)
    ensures
        text_views(r@) == text_views(texts@),
{
    let mut r: Vec<Vec<String>> = Vec::new();
    let ghost all = text_views(texts@);
    let mut i: usize = 0;
    while i < texts.len()
        invariant
            i <= texts.len(),
            all == text_views(texts@),
            text_views(r@) == all.take(i as int),
        decreases texts.len() - i,
    {
        let row = crate::score::copy_lines(&texts[i]);
        let ghost before = text_views(r@);
        proof {
            assert(Seq::new(row.len() as nat, |k: int| row@[k]@) =~= string_views(row@));
            assert(string_views(row@) =~= string_views(texts@[i as int]@));
            assert(all[i as int] =~= string_views(texts@[i as int]@));
        }
        let ghost view = string_views(row@);
        r.push(row);
        i += 1;
        proof {
            assert(text_views(r@) =~= before.push(view));
            assert(text_views(r@) =~= all.take(i as int));
        }
    }
    proof {
        assert(all.take(i as int) =~= all);
    }
    r
}

fn find_gap(gaps: &Vec<(Tick, Tick)>, tick: Tick) -> (r: Tick)
    ensures
        r == gap_at(gaps@, tick as int),
{
    let mut i: usize = gaps.len();
    proof {
        assert(gaps@.take(i as int) =~= gaps@);
    }
    while i > 0
        invariant
            i <= gaps.len(),
            gap_at(gaps@.take(i as int), tick as int) == gap_at(gaps@, tick as int),
        decreases i,
    {
        proof {
            assert(gaps@.take(i as int).drop_last() =~= gaps@.take(i - 1));
            assert(gaps@.take(i as int).last() == gaps@[i - 1]);
        }
        if gaps[i - 1].0 == tick {
            return gaps[i - 1].1;
        }
        i -= 1;
    }
    0
}

fn copied_value(meta: &Meta, key: &str) -> (r: String)
    ensures
        r@ == value_or_empty(meta@, key@),
{
    match meta.get(key) {
        Some(value) => value.clone(),
        None => String::new(),
    }
}

pub(crate) fn renumber(meta: &Meta, index: usize) -> (r: Meta)
    ensures
        r@ == renumbered(meta@, index as int),
{
    let mut name = chars_of("Track");
    push_count(&mut name, index as u128 + 1);
    let mut r = Meta::new();
    r.insert("name".to_owned(), string_of(&name));
    r.insert("program".to_owned(), copied_value(meta, "program"));
    r.insert("songProgram".to_owned(), copied_value(meta, "songProgram"));
    r.insert("panpot".to_owned(), copied_value(meta, "panpot"));
    r.insert("visible".to_owned(), copied_value(meta, "visible"));
    r
}

/// Makes the tracks of a scroll out of the texts of its parts.
fn make_tracks(score: &Score, texts: &Vec<Vec<String>>, reference: bool) -> (r: Result<
    Vec<Track>,
    TrackError,
>)
    requires
        texts.len() == score.tracks.len(),
    ensures
        match r {
            Ok(tracks) => scroll_tracks(
                score@,
                text_views(texts@),
                reference,
                score.tracks.len() as int,
            ) == Ok::<_, TrackError>(track_views(tracks@)),
            Err(e) => scroll_tracks(
                score@,
                text_views(texts@),
                reference,
                score.tracks.len() as int,
            ) == Err::<Seq<TrackView>, _>(e),
        },
{
    let ghost all = text_views(texts@);
    let mut tracks: Vec<Track> = Vec::new();
    let mut i: usize = 0;
    proof {
        assert(track_views(tracks@) =~= Seq::<TrackView>::empty());
    }
    while i < texts.len()
        invariant
            i <= texts.len() == score.tracks.len(),
            all == text_views(texts@),
            scroll_tracks(score@, all, reference, i as int) == Ok::<_, TrackError>(
                track_views(tracks@),
            ),
        decreases texts.len() - i,
    {
        let mut mml = chars_of("MML@");
        push_chars(&mut mml, &join_strings(&texts[i], ','));
        push_text(&mut mml, ";");
        proof {
            assert(all[i as int] =~= string_views(texts@[i as int]@));
            assert(mml@ =~= track_mml(all[i as int]));
        }
        let meta = if reference {
            renumber(&score.tracks[i].meta, i)
        } else {
            score.tracks[i].meta.copy()
        };
        match track_from_mml(string_of(&mml), meta, i) {
            Err(e) => {
                proof {
                    lemma_scroll_tracks_fail(
                        score@,
                        all,
                        reference,
                        i + 1,
                        score.tracks.len() as int,
                    );
                }
                return Err(e);
            },
            Ok(track) => {
                let ghost before = track_views(tracks@);
                let ghost view = track@;
                tracks.push(track);
                proof {
                    assert(track_views(tracks@) =~= before.push(view));
                }
            },
        }
        i += 1;
    }
    Ok(tracks)
}

proof fn lemma_scroll_tracks_fail(
    score: ScoreView,
    texts: Seq<Seq<Seq<char>>>,
    reference: bool,
    from: int,
    to: int,
)
    requires
        0 <= from <= to,
    ensures
        scroll_tracks(score, texts, reference, from) is Err ==> scroll_tracks(
            score,
            texts,
            reference,
            to,
        ) == scroll_tracks(score, texts, reference, from),
    decreases to - from,
{
    if from < to {
        lemma_scroll_tracks_fail(score, texts, reference, from, to - 1);
    }
}

/// Makes the scroll between two ticks.
pub(crate) fn make_scroll(
    score: &Score,
    tempos: &[Tempo],
    sigs: &Vec<(Tick, String)>,
    silent: &Vec<(Tick, Tick)>,
    a: Tick,
    b: Tick,
    limit: usize,
    reference: bool,
    table: &LengthTable,
) -> (r: Result<ScrollChunk, SplitError>)
    requires
        0 <= a <= b,
        table.well_formed(),
        signature_views(sigs@) == signatures_of(score@.tail, score@.tail.len() as int),
        silent@ == gaps_of(score@.notes(), 1),
    ensures
        match r {
            Ok(chunk) => scroll_of(
                score@,
                tempos@,
                a as int,
                b as int,
                limit as int,
                reference,
            ) == Ok::<_, SplitError>(chunk@) && chunk.is_plain(),
            Err(e) => scroll_of(
                score@,
                tempos@,
                a as int,
                b as int,
                limit as int,
                reference,
            ) == Err::<ScrollView, _>(e),
        },
{
    let texts = match encode_chunk_parts(score, tempos, a, b, reference, table) {
        Err(error) => {
            if reference {
                return Err(SplitError::Part { cause: error.cause });
            }
            return Err(SplitError::Chunk { error, start: a, end: b });
        },
        Ok(texts) => texts,
    };
    let widths = text_widths(&texts);
    let all = all_within(&widths, limit);
    proof {
        lemma_all_within(widths@, text_views(texts@), limit as int);
    }
    if !all {
        return Err(SplitError::OverLimit { start: a, end: b, limit });
    }
    proof {
        assert(text_views(texts@).len() == score@.tracks.len());
    }
    let tracks = match make_tracks(score, &texts, reference) {
        Err(fault) => {
            return Err(SplitError::Track { fault });
        },
        Ok(tracks) => tracks,
    };
    let tail = if reference {
        let none: Vec<String> = Vec::new();
        let mut lines = make_tail(&none, sigs, a, b);
        let ghost before = string_views(lines@);
        lines.push(String::new());
        proof {
            assert(string_views(none@) =~= Seq::<Seq<char>>::empty());
            assert(string_views(lines@) =~= before.push(Seq::empty()));
        }
        lines
    } else {
        make_tail(&score.tail, sigs, a, b)
    };
    let head = make_head(&score.head, tempos, a, b);
    Ok(
        ScrollChunk {
            score: Score { head, tracks, tail },
            game_parts: copy_texts(&texts),
            mml_parts: texts,
            tempo_note_splits: 0,
            start: a,
            end: b,
            widths,
            gap: find_gap(silent, b),
        },
    )
}

/// Whether a silence is one to end a scroll at: not too near its start, not behind the
/// furthest cut, at a legal cut that is open.
pub open spec fn in_window(
    score: ScoreView,
    tempos: Seq<Tempo>,
    total: int,
    pos: int,
    best: int,
    dead: Set<int>,
    gap: (Tick, Tick),
) -> bool {
    &&& pos + 6 < gap.0 <= best
    &&& 1 <= gap.0 <= total
    &&& is_legal(|t: int| is_barred(score, tempos, total, t), total, gap.0 as int)
    &&& !dead.contains(gap.0 as int)
}

/// Whether a tick lies at least seventeen twentieths of the way from one tick to another.
pub open spec fn is_near(pos: int, best: int, tick: int) -> bool {
    20 * (tick - pos) >= 17 * (best - pos)
}

/// Whether a tick lies at least two fifths of the way from one tick to another.
pub open spec fn is_far_enough(pos: int, best: int, tick: int) -> bool {
    5 * (tick - pos) >= 2 * (best - pos)
}

/// The key that puts the longest silence first, and of those the last one.
pub open spec fn longest_key(gap: (Tick, Tick)) -> Key {
    ((-gap.1) as i64, (-gap.0) as i64, 0)
}

/// The key that puts the last silence first.
pub open spec fn latest_key(gap: (Tick, Tick)) -> Key {
    ((-gap.0) as i64, 0, 0)
}

/// The silences to try in turn: those near the furthest cut, the longest first, and then the
/// long ones that are far enough, the latest first.
pub open spec fn preferred(
    window: Seq<(Tick, Tick)>,
    pos: int,
    best: int,
    big_gap: int,
) -> Seq<(Tick, Tick)> {
    stable_sort(
        keep(window, |g: (Tick, Tick)| is_near(pos, best, g.0 as int)),
        |g: (Tick, Tick)| longest_key(g),
    ) + stable_sort(
        keep(window, |g: (Tick, Tick)| is_far_enough(pos, best, g.0 as int) && g.1 >= big_gap),
        |g: (Tick, Tick)| latest_key(g),
    )
}

/// The first of some silences, from one on, up to which every part fits; failing that, the
/// furthest cut.
pub open spec fn first_fitting(
    score: ScoreView,
    tempos: Seq<Tempo>,
    pos: int,
    best: int,
    limit: int,
    list: Seq<(Tick, Tick)>,
    i: int,
) -> Result<int, SplitError>
    decreases list.len() - i,
{
    if i < 0 || i >= list.len() {
        Ok(best)
    } else {
        match fits_between(score, tempos, pos, list[i].0 as int, limit) {
            Err(e) => Err(e),
            Ok(true) => Ok(list[i].0 as int),
            Ok(false) => first_fitting(score, tempos, pos, best, limit, list, i + 1),
        }
    }
}

/// Where the scroll that begins at a tick ends, given the furthest cut up to which it fits.
pub open spec fn end_of_scroll(
    score: ScoreView,
    tempos: Seq<Tempo>,
    total: int,
    options: SplitOptions,
    pos: int,
    best: int,
    dead: Set<int>,
) -> Result<int, SplitError> {
    if best < total {
        let window = keep(
            gaps_of(score.notes(), options.min_gap as int),
            |g: (Tick, Tick)| in_window(score, tempos, total, pos, best, dead, g),
        );
        first_fitting(
            score,
            tempos,
            pos,
            best,
            options.limit as int,
            preferred(window, pos, best, options.big_gap as int),
            0,
        )
    } else {
        Ok(best)
    }
}

pub(crate) fn sort_longest(list: &Vec<(Tick, Tick)>) -> (sorted: Vec<(Tick, Tick)>)
    requires
        forall|i: int| 0 <= i < list.len() ==> (#[trigger] list[i]).0 >= 0 && list[i].1 > 0,
    ensures
        sorted@ == stable_sort(list@, |g: (Tick, Tick)| longest_key(g)),
{
    let mut keys: Vec<Key> = Vec::new();
    let mut i: usize = 0;
    while i < list.len()
        invariant
            i <= list.len(),
            forall|k: int| 0 <= k < list.len() ==> (#[trigger] list[k]).0 >= 0 && list[k].1 > 0,
            keys.len() == i,
            forall|k: int| 0 <= k < i ==> #[trigger] keys[k] == longest_key(list@[k]),
        decreases list.len() - i,
    {
        let gap = list[i];
        keys.push((-gap.1, -gap.0, 0));
        i += 1;
    }
    proof {
        lemma_order_sorts(list@, keys@, |g: (Tick, Tick)| longest_key(g));
    }
    gather(list, &order(&keys))
}

pub(crate) fn sort_latest(list: &Vec<(Tick, Tick)>) -> (sorted: Vec<(Tick, Tick)>)
    requires
        forall|i: int| 0 <= i < list.len() ==> (#[trigger] list[i]).0 >= 0 && list[i].1 > 0,
    ensures
        sorted@ == stable_sort(list@, |g: (Tick, Tick)| latest_key(g)),
{
    let mut keys: Vec<Key> = Vec::new();
    let mut i: usize = 0;
    while i < list.len()
        invariant
            i <= list.len(),
            forall|k: int| 0 <= k < list.len() ==> (#[trigger] list[k]).0 >= 0 && list[k].1 > 0,
            keys.len() == i,
            forall|k: int| 0 <= k < i ==> #[trigger] keys[k] == latest_key(list@[k]),
        decreases list.len() - i,
    {
        let gap = list[i];
        keys.push((-gap.0, 0, 0));
        i += 1;
    }
    proof {
        lemma_order_sorts(list@, keys@, |g: (Tick, Tick)| latest_key(g));
    }
    gather(list, &order(&keys))
}

fn gather(list: &Vec<(Tick, Tick)>, sequence: &Vec<usize>) -> (r: Vec<(Tick, Tick)>)
    requires
        forall|k: int| 0 <= k < sequence.len() ==> (#[trigger] sequence[k]) < list.len(),
    ensures
        r@ == sequence@.map_values(|i: usize| list@[i as int]),
{
    let ghost f = |i: usize| list@[i as int];
    let mut r: Vec<(Tick, Tick)> = Vec::new();
    let mut i: usize = 0;
    while i < sequence.len()
        invariant
            i <= sequence.len(),
            f == (|i: usize| list@[i as int]),
            forall|k: int| 0 <= k < sequence.len() ==> (#[trigger] sequence[k]) < list.len(),
            r@ == sequence@.take(i as int).map_values(f),
        decreases sequence.len() - i,
    {
        r.push(list[sequence[i]]);
        i += 1;
        proof {
            assert(r@ =~= sequence@.take(i as int).map_values(f));
        }
    }
    proof {
        assert(sequence@.take(i as int) =~= sequence@);
    }
    r
}

/// Chooses where the scroll that begins at a tick ends.
pub(crate) fn choose_end(
    score: &Score,
    tempos: &[Tempo],
    cuts: &LegalCuts,
    candidates: &Vec<(Tick, Tick)>,
    total: Tick,
    options: &SplitOptions,
    pos: Tick,
    best: Tick,
    dead: &Vec<Tick>,
    table: &LengthTable,
) -> (r: Result<Tick, SplitError>)
    requires
        table.well_formed(),
        cuts.describes(|t: int| is_barred(score@, tempos@, total as int, t), total as int),
        1 <= total < i64::MAX - 6,
        0 <= pos < best <= total,
        !ticks_set(dead@).contains(best as int),
        candidates@ == gaps_of(score@.notes(), options.min_gap as int),
        forall|i: int|
            0 <= i < candidates.len() ==> (#[trigger] candidates[i]).0 >= 0 && candidates[i].1
                > 0,
    ensures
        match r {
            Ok(tick) => end_of_scroll(
                score@,
                tempos@,
                total as int,
                *options,
                pos as int,
                best as int,
                ticks_set(dead@),
            ) == Ok::<int, SplitError>(tick as int) && pos < tick <= total && !ticks_set(
                dead@,
            ).contains(tick as int),
            Err(e) => end_of_scroll(
                score@,
                tempos@,
                total as int,
                *options,
                pos as int,
                best as int,
                ticks_set(dead@),
            ) == Err::<int, SplitError>(e),
        },
{
    if best >= total {
        return Ok(best);
    }
    let ghost barred = |t: int| is_barred(score@, tempos@, total as int, t);
    let ghost gone = ticks_set(dead@);
    let ghost inside = |g: (Tick, Tick)|
        in_window(score@, tempos@, total as int, pos as int, best as int, gone, g);
    let ghost near_by = |g: (Tick, Tick)| is_near(pos as int, best as int, g.0 as int);
    let ghost long_off = |g: (Tick, Tick)|
        is_far_enough(pos as int, best as int, g.0 as int) && g.1 >= options.big_gap;
    let span: i128 = best as i128 - pos as i128;
    let mut near: Vec<(Tick, Tick)> = Vec::new();
    let mut far: Vec<(Tick, Tick)> = Vec::new();
    let mut i: usize = 0;
    let ghost mut window = Seq::<(Tick, Tick)>::empty();
    proof {
        assert(candidates@.take(0) =~= Seq::<(Tick, Tick)>::empty());
    }
    while i < candidates.len()
        invariant
            i <= candidates.len(),
            1 <= total < i64::MAX - 6,
            0 <= pos < best < total,
            span == best - pos,
            barred == (|t: int| is_barred(score@, tempos@, total as int, t)),
            cuts.describes(barred, total as int),
            gone == ticks_set(dead@),
            inside == (|g: (Tick, Tick)|
                in_window(score@, tempos@, total as int, pos as int, best as int, gone, g)),
            near_by == (|g: (Tick, Tick)| is_near(pos as int, best as int, g.0 as int)),
            long_off == (|g: (Tick, Tick)|
                is_far_enough(pos as int, best as int, g.0 as int) && g.1 >= options.big_gap),
            forall|k: int|
                0 <= k < candidates.len() ==> (#[trigger] candidates[k]).0 >= 0 && candidates[k].1
                    > 0,
            window == keep(candidates@.take(i as int), inside),
            near@ == keep(window, near_by),
            far@ == keep(window, long_off),
            forall|k: int| 0 <= k < near.len() ==> inside(#[trigger] near[k]) && near[k].1 > 0,
            forall|k: int| 0 <= k < far.len() ==> inside(#[trigger] far[k]) && far[k].1 > 0,
        decreases candidates.len() - i,
    {
        let gap = candidates[i];
        proof {
            assert(candidates@.take(i + 1).drop_last() =~= candidates@.take(i as int));
            assert(candidates@.take(i + 1).last() == gap);
        }
        if pos + 6 < gap.0 && gap.0 <= best && cuts.contains(
            gap.0,
            Ghost(barred),
            Ghost(total as int),
        ) && !is_dead(dead, gap.0) {
            let way: i128 = gap.0 as i128 - pos as i128;
            let ghost wider = window.push(gap);
            proof {
                assert(inside(gap));
                assert(wider.drop_last() =~= window);
            }
            if 20 * way >= 17 * span {
                near.push(gap);
            }
            if 5 * way >= 2 * span && gap.1 >= options.big_gap {
                far.push(gap);
            }
            proof {
                window = wider;
            }
        }
        i += 1;
    }
    proof {
        assert(candidates@.take(i as int) =~= candidates@);
    }
    let sorted_near = sort_longest(&near);
    let sorted_far = sort_latest(&far);
    let ghost list = preferred(window, pos as int, best as int, options.big_gap as int);
    proof {
        assert(list == sorted_near@ + sorted_far@);
        lemma_stable_sort(near@, |g: (Tick, Tick)| longest_key(g));
        lemma_stable_sort(far@, |g: (Tick, Tick)| latest_key(g));
        assert forall|k: int| 0 <= k < list.len() implies inside(#[trigger] list[k]) by {
            if k < sorted_near.len() {
                assert(near@.contains(sorted_near@[k]));
                let m = choose|m: int| 0 <= m < near.len() && near@[m] == sorted_near@[k];
                assert(inside(near[m]));
            } else {
                assert(far@.contains(sorted_far@[k - sorted_near.len()]));
                let m = choose|m: int|
                    0 <= m < far.len() && far@[m] == sorted_far@[k - sorted_near.len()];
                assert(inside(far[m]));
            }
        }
    }
    let ghost goal = first_fitting(
        score@,
        tempos@,
        pos as int,
        best as int,
        options.limit as int,
        list,
        0,
    );
    let mut k: usize = 0;
    while k < sorted_near.len()
        invariant
            k <= sorted_near.len(),
            0 <= pos < best < total,
            table.well_formed(),
            gone == ticks_set(dead@),
            inside == (|g: (Tick, Tick)|
                in_window(score@, tempos@, total as int, pos as int, best as int, gone, g)),
            list == sorted_near@ + sorted_far@,
            forall|m: int| 0 <= m < list.len() ==> inside(#[trigger] list[m]),
            goal == end_of_scroll(
                score@,
                tempos@,
                total as int,
                *options,
                pos as int,
                best as int,
                gone,
            ),
            goal == first_fitting(
                score@,
                tempos@,
                pos as int,
                best as int,
                options.limit as int,
                list,
                k as int,
            ),
        decreases sorted_near.len() - k,
    {
        let tick: Tick = sorted_near[k].0;
        proof {
            assert(list[k as int] == sorted_near@[k as int]);
            assert(inside(list[k as int]));
        }
        match fits_lossless(score, tempos, pos, tick, options.limit, table) {
            Err(e) => {
                return Err(e);
            },
            Ok(fit) => {
                if fit {
                    return Ok(tick);
                }
            },
        }
        k += 1;
    }
    let mut k: usize = 0;
    while k < sorted_far.len()
        invariant
            k <= sorted_far.len(),
            0 <= pos < best < total,
            table.well_formed(),
            gone == ticks_set(dead@),
            inside == (|g: (Tick, Tick)|
                in_window(score@, tempos@, total as int, pos as int, best as int, gone, g)),
            list == sorted_near@ + sorted_far@,
            forall|m: int| 0 <= m < list.len() ==> inside(#[trigger] list[m]),
            goal == end_of_scroll(
                score@,
                tempos@,
                total as int,
                *options,
                pos as int,
                best as int,
                gone,
            ),
            goal == first_fitting(
                score@,
                tempos@,
                pos as int,
                best as int,
                options.limit as int,
                list,
                sorted_near.len() + k,
            ),
        decreases sorted_far.len() - k,
    {
        let tick: Tick = sorted_far[k].0;
        proof {
            assert(list[sorted_near.len() + k] == sorted_far@[k as int]);
            assert(inside(list[sorted_near.len() + k]));
        }
        match fits_lossless(score, tempos, pos, tick, options.limit, table) {
            Err(e) => {
                return Err(e);
            },
            Ok(fit) => {
                if fit {
                    return Ok(tick);
                }
            },
        }
        k += 1;
    }
    Ok(best)
}

} // verus!
