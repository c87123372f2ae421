//! What a window over one score keeps: the score, the results of the work on it, and what is
//! shown of them.
use crate::input::{is_midi_path, is_portable, may_name_midi, names_midi};
use crate::polyphony::{is_max_voices, max_polyphony};
use crate::score::{last_end, Score, ScoreView, Tick};
use crate::text::{chars_of, string_of};
use crate::workflow::{artifact_views, export_of, score_file, source_export, Artifact, WorkError, WorkKind, WorkResult};
use vstd::prelude::*;

verus! {

/// The piece of work that the window is set to.
#[derive(Clone, Copy, Debug, PartialEq, Eq, Structural)]
pub enum Mode {
    Fold,
    Split,
}

/// What the window shows of a result.
#[derive(Clone, Copy, Debug, PartialEq, Eq, Structural)]
pub enum Tab {
    Preview,
    Mml,
}

/// What was last told to the reader.
#[derive(Clone, Copy, Debug, PartialEq, Eq, Structural)]
pub enum Notice {
    Quiet,
    Done { files: usize },
    SplitSourceChanged,
    FoldOptionsChanged,
    Saved,
    Failed,
}

/// A score that was opened, with whether its file is a MIDI file by its name, how many notes it
/// has and how many of them sound at once.
#[derive(Debug)]
pub struct Loaded {
    pub path: String,
    pub stem: String,
    pub midi: bool,
    pub score: Score,
    pub notes: usize,
    pub polyphony: usize,
}

impl Loaded {
    /// Takes in a score that was read from a file.
    pub fn new(path: String, stem: String, score: Score) -> (r: Loaded)
        ensures
            r.path == path,
            r.stem == stem,
            r.score == score,
            may_name_midi(path@, r.midi),
            is_portable(path@) ==> r.midi == names_midi(path@),
            r.notes == score@.notes().len(),
            is_max_voices(score@.notes(), r.polyphony as int),
    {
        let midi: bool = is_midi_path(path.as_str());
        let all = score.all_notes();
        let polyphony: usize = max_polyphony(&all);
        Loaded { path, stem, midi, notes: all.len(), polyphony, score }
    }
}

/// Which part of the result is in sight.
#[derive(Clone, Copy, Debug)]
pub struct Screen {
    /// Counts the results that were shown.
    pub revision: u64,
    pub notes: usize,
    pub polyphony: usize,
    pub beats: i64,
    pub start_tick: Tick,
    pub tab: Tab,
    pub show_original: bool,
    pub artifact: usize,
    pub scroll: usize,
    pub follow_playhead: bool,
}

/// What a piece of work in the background ended with.
pub enum JobDone {
    Loaded(Loaded),
    Worked(WorkResult),
    Saved(String),
}

/// What would be saved: the result that is there, or the opened score as a file.
pub enum Export<'a> {
    Shown(&'a WorkResult),
    Source(WorkResult),
}

/// The state of the window.
pub struct Workspace {
    pub source: Option<Loaded>,
    pub mode: Mode,
    pub fold: Option<WorkResult>,
    pub split: Option<WorkResult>,
    pub split_uses_folded: bool,
    pub busy: bool,
    pub notice: Notice,
    pub error: Option<String>,
    pub saved: Option<String>,
    pub screen: Screen,
    /// The revision that the player has, and whether it plays the opened score.
    pub heard: Option<(u64, bool)>,
}

/// How many beats show a stretch of a score, no fewer than four and no more than 256.
pub open spec fn beats_of(start: int, end: int) -> int {
    let beats = (end - start + 95) / 96;
    if beats < 4 {
        4
    } else if beats > 256 {
        256
    } else {
        beats
    }
}

fn count_beats(start: Tick, end: Tick) -> (r: i64)
    ensures
        r == beats_of(start as int, end as int),
        4 <= r <= 256,
{
    let span: i128 = end as i128 - start as i128 + 95;
    if span < 4 * 96 {
        4
    } else if span >= 257 * 96 {
        256
    } else {
        (span / 96) as i64
    }
}

/// The first tick in sight where a scroll that begins at a tick is shown: the scroll's own,
/// but for a scroll so near the end that less than the window would be filled.
pub open spec fn start_of(start: int, beats: int, total: int) -> int {
    let last = if total - beats * 96 > 0 {
        total - beats * 96
    } else {
        0
    };
    if start < last {
        start
    } else {
        last
    }
}

/// Keeps the first tick in sight where the window is filled, as far as the score is long enough.
pub fn keep_in_sight(start: Tick, beats: i64, total: Tick) -> (r: Tick)
    requires
        4 <= beats <= 256,
    ensures
        r == start_of(start as int, beats as int, total as int),
{
    let last: Tick = if total > beats * 96 {
        total - beats * 96
    } else {
        0
    };
    if start < last {
        start
    } else {
        last
    }
}

/// Whether a file holds a scroll: it is named as a score and has the texts of its parts.
pub open spec fn is_scroll(artifact: Artifact) -> bool {
    let n = artifact.name@.len() as int;
    &&& n >= 4
    &&& artifact.name@.skip(n - 4) == ".mmi"@
    &&& artifact.game_parts@.len() > 0
}

/// The places of the scrolls among the first files.
pub open spec fn scrolls_among(artifacts: Seq<Artifact>, n: int) -> Seq<int>
    decreases n,
{
    if n <= 0 {
        Seq::empty()
    } else if is_scroll(artifacts[n - 1]) {
        scrolls_among(artifacts, n - 1).push(n - 1)
    } else {
        scrolls_among(artifacts, n - 1)
    }
}

/// The places of the scrolls among some files.
pub open spec fn scrolls_in(artifacts: Seq<Artifact>) -> Seq<int> {
    scrolls_among(artifacts, artifacts.len() as int)
}

proof fn lemma_scrolls_ascend(artifacts: Seq<Artifact>, n: int)
    requires
        0 <= n <= artifacts.len(),
    ensures
        forall|i: int|
            0 <= i < scrolls_among(artifacts, n).len() ==> 0 <= #[trigger] scrolls_among(
                artifacts,
                n,
            )[i] < n,
        forall|i: int, k: int|
            0 <= i < k < scrolls_among(artifacts, n).len() ==> #[trigger] scrolls_among(
                artifacts,
                n,
            )[i] < #[trigger] scrolls_among(artifacts, n)[k],
    decreases n,
{
    if n > 0 {
        lemma_scrolls_ascend(artifacts, n - 1);
        let fewer = scrolls_among(artifacts, n - 1);
        let all = scrolls_among(artifacts, n);
        assert forall|i: int| 0 <= i < all.len() implies 0 <= #[trigger] all[i] < n by {
            if i < fewer.len() {
                assert(all[i] == fewer[i]);
            }
        }
        assert forall|i: int, k: int| 0 <= i < k < all.len() implies #[trigger] all[i]
            < #[trigger] all[k] by {
            assert(all[i] == fewer[i]);
            if k < fewer.len() {
                assert(all[k] == fewer[k]);
            }
        }
    }
}

fn holds_scroll(artifact: &Artifact) -> (r: bool)
    ensures
        r == is_scroll(*artifact),
{
    let name = chars_of(artifact.name.as_str());
    let n = name.len();
    proof {
        reveal_strlit(".mmi");
        if n >= 4 {
            let end = name@.skip(n - 4);
            assert(end[0] == name@[n - 4] && end[1] == name@[n - 3] && end[2] == name@[n - 2]
                && end[3] == name@[n - 1]);
            if end[0] == '.' && end[1] == 'm' && end[2] == 'm' && end[3] == 'i' {
                assert(end =~= ".mmi"@);
            }
        }
    }
    n >= 4 && name[n - 4] == '.' && name[n - 3] == 'm' && name[n - 2] == 'm' && name[n - 1] == 'i'
        && artifact.game_parts.len() > 0
}

fn find_scrolls(artifacts: &Vec<Artifact>) -> (r: Vec<usize>)
    ensures
        r@.map_values(|i: usize| i as int) == scrolls_in(artifacts@),
{
    let mut r: Vec<usize> = Vec::new();
    let mut i: usize = 0;
    proof {
        assert(r@.map_values(|i: usize| i as int) =~= Seq::<int>::empty());
    }
    while i < artifacts.len()
        invariant
            i <= artifacts.len(),
            r@.map_values(|i: usize| i as int) == scrolls_among(artifacts@, i as int),
        decreases artifacts.len() - i,
    {
        let ghost before = r@;
        if holds_scroll(&artifacts[i]) {
            r.push(i);
            proof {
                assert(r@.map_values(|i: usize| i as int) =~= before.map_values(
                    |i: usize| i as int,
                ).push(i as int));
            }
        }
        i += 1;
    }
    r
}

/// How the window looks at a result that has just been put into it.
pub open spec fn renewed(before: Screen, after: Screen, result: Option<WorkResult>) -> bool {
    &&& after.revision == before.revision.wrapping_add(1)
    &&& !after.show_original
    &&& after.artifact == 0
    &&& after.scroll == 0
    &&& after.start_tick == 0
    &&& after.follow_playhead
    &&& after.tab == Tab::Preview
    &&& match result {
        None => after.notes == 0 && after.polyphony == 0 && after.beats == before.beats,
        Some(work) => {
            &&& after.notes == work.score@.notes().len()
            &&& is_max_voices(work.score@.notes(), after.polyphony as int)
            &&& after.beats == match work.split {
                Some(split) => if split.chunks@.len() > 0 {
                    beats_of(split.chunks@[0].start as int, split.chunks@[0].end as int)
                } else {
                    before.beats as int
                },
                None => before.beats as int,
            }
        },
    }
}

fn renew(before: Screen, result: &Option<WorkResult>) -> (after: Screen)
    ensures
        renewed(before, after, *result),
{
    let mut notes: usize = 0;
    let mut polyphony: usize = 0;
    let mut beats: i64 = before.beats;
    if let Some(work) = result {
        let all = work.score.all_notes();
        notes = all.len();
        polyphony = max_polyphony(&all);
        if let Some(split) = &work.split {
            if split.chunks.len() > 0 {
                beats = count_beats(split.chunks[0].start, split.chunks[0].end);
            }
        }
    }
    Screen {
        revision: before.revision.wrapping_add(1),
        notes,
        polyphony,
        beats,
        start_tick: 0,
        tab: Tab::Preview,
        show_original: false,
        artifact: 0,
        scroll: 0,
        follow_playhead: true,
    }
}

/// The result of a piece of work, where it has been done.
pub open spec fn result_of(w: Workspace) -> Option<WorkResult> {
    match w.mode {
        Mode::Fold => w.fold,
        Mode::Split => w.split,
    }
}

/// What the work is done on, as a score.
pub open spec fn input_of(w: Workspace) -> Option<ScoreView> {
    if w.mode == Mode::Split && w.split_uses_folded {
        match w.fold {
            Some(work) => Some(work.score@),
            None => None,
        }
    } else {
        match w.source {
            Some(source) => Some(source.score@),
            None => None,
        }
    }
}

/// Whether the work is done on an opened MIDI file itself.
pub open spec fn input_is_midi(w: Workspace) -> bool {
    !(w.mode == Mode::Split && w.split_uses_folded) && match w.source {
        Some(source) => source.midi,
        None => false,
    }
}

/// The name that files are called by.
pub open spec fn stem_of(w: Workspace) -> Seq<char> {
    match w.source {
        Some(source) => source.stem@,
        None => "score"@,
    }
}

/// A workspace in which the result of the mode has been put into sight.
pub open spec fn presented(before: Workspace, after: Workspace) -> bool {
    &&& after == (Workspace { saved: None, screen: after.screen, ..before })
    &&& renewed(before.screen, after.screen, result_of(before))
}

/// A workspace that has lost the scrolls.
pub open spec fn without_split(before: Workspace, after: Workspace) -> bool {
    let emptied = Workspace { split: None, ..before };
    if before.mode == Mode::Split {
        presented(emptied, after)
    } else {
        after == emptied
    }
}

/// A workspace in which a mode has been turned to.
pub open spec fn turned(before: Workspace, after: Workspace, mode: Mode) -> bool {
    if before.busy || before.mode == mode {
        after == before
    } else {
        presented(Workspace { mode, notice: Notice::Quiet, ..before }, after)
    }
}

/// A workspace whose scrolls are to be made of the folded score, or of the opened one.
pub open spec fn retargeted(before: Workspace, after: Workspace, folded: bool) -> bool {
    if before.busy || before.split_uses_folded == folded || (folded && before.fold is None) {
        after == before
    } else {
        without_split(
            Workspace {
                split_uses_folded: folded,
                notice: Notice::SplitSourceChanged,
                ..before
            },
            after,
        )
    }
}

/// A workspace that has opened a score.
pub open spec fn opened(before: Workspace, after: Workspace, source: Loaded) -> bool {
    presented(
        Workspace {
            source: Some(source),
            fold: None,
            split: None,
            split_uses_folded: false,
            notice: Notice::Quiet,
            ..before
        },
        after,
    )
}

/// A workspace that has taken in what a piece of work gave.
pub open spec fn completed(before: Workspace, after: Workspace, work: WorkResult) -> bool {
    let notice = Notice::Done { files: work.artifacts.len() };
    match work.kind {
        WorkKind::Fold => presented(
            Workspace {
                fold: Some(work),
                split: None,
                split_uses_folded: true,
                notice,
                ..before
            },
            after,
        ),
        WorkKind::Split => {
            let filled = Workspace { split: Some(work), notice, ..before };
            if before.mode == Mode::Split {
                presented(filled, after)
            } else {
                after == filled
            }
        },
        _ => after == before,
    }
}

/// A workspace that has lost the folded score, and the scrolls that were made of it.
pub open spec fn without_fold(before: Workspace, after: Workspace) -> bool {
    let notice = if before.fold is Some {
        Notice::FoldOptionsChanged
    } else {
        before.notice
    };
    let split = if before.split_uses_folded {
        None
    } else {
        before.split
    };
    let emptied = Workspace { fold: None, split, split_uses_folded: false, notice, ..before };
    if before.mode == Mode::Fold || before.split_uses_folded {
        presented(emptied, after)
    } else {
        after == emptied
    }
}

/// The file of a scroll that can be turned to: one that the result lists and has a file of.
pub open spec fn scroll_file(w: Workspace, scroll: int) -> Option<int> {
    match result_of(w) {
        Some(work) => match work.split {
            Some(split) => if work.kind == WorkKind::Split && 0 <= scroll < split.chunks@.len()
                && scroll < scrolls_in(work.artifacts@).len() {
                Some(scrolls_in(work.artifacts@)[scroll])
            } else {
                None
            },
            None => None,
        },
        None => None,
    }
}

/// A workspace in which a scroll has been turned to.
pub open spec fn scrolled(before: Workspace, after: Workspace, scroll: int) -> bool {
    match scroll_file(before, scroll) {
        None => after == before,
        Some(file) => {
            let work = result_of(before)->Some_0;
            let chunk = work.split->Some_0.chunks@[scroll];
            let beats = beats_of(chunk.start as int, chunk.end as int);
            after == (Workspace {
                screen: Screen {
                    scroll: scroll as usize,
                    artifact: file as usize,
                    beats: beats as i64,
                    start_tick: start_of(
                        chunk.start as int,
                        beats,
                        last_end(work.score@.notes()) as int,
                    ) as i64,
                    follow_playhead: false,
                    ..before.screen
                },
                ..before
            })
        },
    }
}

/// A workspace in which a file has been turned to, and with it the scroll that it holds.
pub open spec fn picked(before: Workspace, after: Workspace, file: int) -> bool {
    match result_of(before) {
        None => after == before,
        Some(work) => if file >= work.artifacts@.len() {
            after == before
        } else {
            let marked = Workspace {
                screen: Screen { artifact: file as usize, ..before.screen },
                ..before
            };
            if work.kind == WorkKind::Split && scrolls_in(work.artifacts@).contains(file) {
                scrolled(marked, after, scrolls_in(work.artifacts@).index_of(file))
            } else {
                after == marked
            }
        },
    }
}

/// What every window keeps: it splits the folded score only where there is one, and a
/// result that it keeps is that of its own kind of work.
pub open spec fn is_sound(w: Workspace) -> bool {
    &&& w.split_uses_folded ==> w.fold is Some
    &&& w.fold is Some ==> w.fold->Some_0.kind == WorkKind::Fold
    &&& w.split is Some ==> w.split->Some_0.kind == WorkKind::Split
}

impl Workspace {
    /// An empty window.
    pub fn new() -> (r: Self)
        ensures
            is_sound(r),
            r.source is None && r.fold is None && r.split is None,
            r.mode == Mode::Fold,
            !r.split_uses_folded && !r.busy,
            r.notice == Notice::Quiet,
            r.error is None && r.saved is None && r.heard is None,
            r.screen.revision == 0 && r.screen.notes == 0 && r.screen.polyphony == 0,
            r.screen.beats == 32 && r.screen.start_tick == 0,
            r.screen.tab == Tab::Preview && !r.screen.show_original,
            r.screen.artifact == 0 && r.screen.scroll == 0 && r.screen.follow_playhead,
    {
        Workspace {
            source: None,
            mode: Mode::Fold,
            fold: None,
            split: None,
            split_uses_folded: false,
            busy: false,
            notice: Notice::Quiet,
            error: None,
            saved: None,
            screen: Screen {
                revision: 0,
                notes: 0,
                polyphony: 0,
                beats: 32,
                start_tick: 0,
                tab: Tab::Preview,
                show_original: false,
                artifact: 0,
                scroll: 0,
                follow_playhead: true,
            },
            heard: None,
        }
    }

    /// The result of the mode.
    pub fn result(&self) -> (r: Option<&WorkResult>)
        ensures
            match r {
                Some(work) => result_of(*self) == Some(*work),
                None => result_of(*self) is None,
            },
    {
        match self.mode {
            Mode::Fold => self.fold.as_ref(),
            Mode::Split => self.split.as_ref(),
        }
    }

    /// The score that the work of the mode is done on.
    pub fn input_source(&self) -> (r: Option<&Score>)
        ensures
            match r {
                Some(score) => input_of(*self) == Some(score@),
                None => input_of(*self) is None,
            },
    {
        if self.mode == Mode::Split && self.split_uses_folded {
            match &self.fold {
                Some(work) => Some(&work.score),
                None => None,
            }
        } else {
            match &self.source {
                Some(source) => Some(&source.score),
                None => None,
            }
        }
    }

    /// The result as far as it is in sight: not where the opened score is previewed instead.
    pub fn displayed_result(&self) -> (r: Option<&WorkResult>)
        ensures
            match r {
                Some(work) => result_of(*self) == Some(*work) && (self.screen.tab != Tab::Preview
                    || !self.screen.show_original),
                None => result_of(*self) is None || (self.screen.tab == Tab::Preview
                    && self.screen.show_original),
            },
    {
        if self.screen.tab != Tab::Preview || !self.screen.show_original {
            self.result()
        } else {
            None
        }
    }

    fn works_on_midi(&self) -> (r: bool)
        ensures
            r == input_is_midi(*self),
    {
        if self.mode == Mode::Split && self.split_uses_folded {
            false
        } else {
            match &self.source {
                Some(source) => source.midi,
                None => false,
            }
        }
    }

    /// Whether there is anything to save.
    pub fn can_save(&self) -> (r: bool)
        ensures
            r == (result_of(*self) is Some || input_is_midi(*self)),
    {
        self.result().is_some() || self.works_on_midi()
    }

    /// The name that files are called by.
    pub fn stem(&self) -> (r: String)
        ensures
            r@ == stem_of(*self),
    {
        match &self.source {
            Some(source) => string_of(&chars_of(source.stem.as_str())),
            None => string_of(&chars_of("score")),
        }
    }

    /// What would be saved: the result of the mode where there is one, else an opened MIDI file
    /// as a score file, else nothing.
    pub fn export_result(&self) -> (r: Result<Option<Export<'_>>, WorkError>)
        ensures
            match r {
                Ok(Some(Export::Shown(work))) => result_of(*self) == Some(*work),
                Ok(Some(Export::Source(work))) => {
                    &&& result_of(*self) is None
                    &&& input_is_midi(*self)
                    &&& work.kind == WorkKind::Import
                    &&& work.score@ == input_of(*self)->Some_0
                    &&& work.report@ == Seq::<char>::empty()
                    &&& score_file(work.score@, stem_of(*self) + ".mmi"@) is Ok
                    &&& artifact_views(work.artifacts@) == seq![
                        score_file(work.score@, stem_of(*self) + ".mmi"@)->Ok_0,
                    ]
                    &&& work.split is None
                },
                Ok(None) => result_of(*self) is None && !input_is_midi(*self),
                Err(WorkError::NoPayload { track }) => result_of(*self) is None && input_is_midi(
                    *self,
                ) && export_of(input_of(*self)->Some_0) == Err::<Seq<Seq<Seq<char>>>, int>(
                    track as int,
                ),
                Err(_) => false,
            },
    {
        if let Some(work) = self.result() {
            return Ok(Some(Export::Shown(work)));
        }
        if !self.works_on_midi() {
            return Ok(None);
        }
        match self.input_source() {
            None => Ok(None),
            Some(score) => {
                let stem = self.stem();
                match source_export(score, stem.as_str()) {
                    Ok(work) => Ok(Some(Export::Source(work))),
                    Err(error) => Err(error),
                }
            },
        }
    }

    fn present(&mut self)
        ensures
            presented(*old(self), *final(self)),
    {
        let screen = match self.mode {
            Mode::Fold => renew(self.screen, &self.fold),
            Mode::Split => renew(self.screen, &self.split),
        };
        self.screen = screen;
        self.saved = None;
    }

    /// Turns to a mode and shows its result, unless work is under way.
    pub fn set_mode(&mut self, mode: Mode)
        ensures
            turned(*old(self), *final(self), mode),
            is_sound(*old(self)) ==> is_sound(*final(self)),
    {
        if self.busy || self.mode == mode {
            return;
        }
        self.mode = mode;
        self.notice = Notice::Quiet;
        self.present();
    }

    /// Opens a score and gives up all that was made of the one before.
    pub fn accept_source(&mut self, source: Loaded)
        ensures
            opened(*old(self), *final(self), source),
            is_sound(*final(self)),
    {
        self.notice = Notice::Quiet;
        self.source = Some(source);
        self.fold = None;
        self.split = None;
        self.split_uses_folded = false;
        self.present();
    }

    /// Takes in what a piece of work gave. A folded score becomes what is split, and scrolls
    /// that were made before it are given up.
    pub fn complete_result(&mut self, result: WorkResult)
        ensures
            completed(*old(self), *final(self), result),
            is_sound(*old(self)) ==> is_sound(*final(self)),
    {
        let files: usize = result.artifacts.len();
        match result.kind {
            WorkKind::Fold => {
                self.fold = Some(result);
                self.split = None;
                self.split_uses_folded = true;
                self.notice = Notice::Done { files };
                self.present();
            },
            WorkKind::Split => {
                self.split = Some(result);
                self.notice = Notice::Done { files };
                if self.mode == Mode::Split {
                    self.present();
                }
            },
            _ => {},
        }
    }

    /// Sets whether the folded score is split, where there is one, or the opened score.
    pub fn set_split_source(&mut self, folded: bool)
        ensures
            retargeted(*old(self), *final(self), folded),
            is_sound(*old(self)) ==> is_sound(*final(self)),
    {
        if self.busy || self.split_uses_folded == folded || (folded && self.fold.is_none()) {
            return;
        }
        self.split_uses_folded = folded;
        self.notice = Notice::SplitSourceChanged;
        self.invalidate_split();
    }

    /// Turns to splitting the folded score.
    pub fn prepare_split(&mut self)
        ensures
            if old(self).busy || old(self).fold is None {
                *final(self) == *old(self)
            } else {
                exists|between: Workspace| #[trigger]
                    retargeted(*old(self), between, true) && turned(
                        between,
                        *final(self),
                        Mode::Split,
                    )
            },
            is_sound(*old(self)) ==> is_sound(*final(self)),
    {
        if self.busy || self.fold.is_none() {
            return;
        }
        self.set_split_source(true);
        let ghost between = *self;
        self.set_mode(Mode::Split);
        proof {
            assert(retargeted(*old(self), between, true));
        }
    }

    /// Gives up the folded score, and the scrolls that were made of it, where the way to fold
    /// has changed.
    pub fn invalidate_fold(&mut self)
        ensures
            without_fold(*old(self), *final(self)),
            is_sound(*old(self)) ==> is_sound(*final(self)),
    {
        if self.fold.is_some() {
            self.notice = Notice::FoldOptionsChanged;
        }
        self.fold = None;
        if self.split_uses_folded {
            self.split_uses_folded = false;
            self.invalidate_split();
        }
        if self.mode == Mode::Fold {
            self.present();
        }
    }

    /// Gives up the scrolls, where the way to split has changed.
    pub fn invalidate_split(&mut self)
        ensures
            without_split(*old(self), *final(self)),
            is_sound(*old(self)) ==> is_sound(*final(self)),
    {
        self.split = None;
        if self.mode == Mode::Split {
            self.present();
        }
    }

    /// Turns to a scroll and to its file.
    pub fn select_split(&mut self, selected: usize)
        ensures
            scrolled(*old(self), *final(self), selected as int),
            is_sound(*old(self)) ==> is_sound(*final(self)),
    {
        let mut screen = self.screen;
        match self.result() {
            None => {},
            Some(work) => {
                if work.kind == WorkKind::Split {
                    if let Some(split) = &work.split {
                        let files = find_scrolls(&work.artifacts);
                        let ghost places = files@.map_values(|i: usize| i as int);
                        if selected < split.chunks.len() && selected < files.len() {
                            let chunk = &split.chunks[selected];
                            proof {
                                assert(places[selected as int] == files@[selected as int]);
                            }
                            screen.scroll = selected;
                            screen.artifact = files[selected];
                            screen.beats = count_beats(chunk.start, chunk.end);
                            screen.start_tick =
                            keep_in_sight(chunk.start, screen.beats, work.score.total_ticks());
                            screen.follow_playhead = false;
                        }
                    }
                }
            },
        }
        self.screen = screen;
    }

    /// Turns to a file, and to the scroll that it holds.
    pub fn select_artifact(&mut self, selected: usize)
        ensures
            picked(*old(self), *final(self), selected as int),
            is_sound(*old(self)) ==> is_sound(*final(self)),
    {
        let mut scroll: Option<usize> = None;
        match self.result() {
            None => {
                return;
            },
            Some(work) => {
                if selected >= work.artifacts.len() {
                    return;
                }
                if work.kind == WorkKind::Split {
                    let files = find_scrolls(&work.artifacts);
                    let ghost places = files@.map_values(|i: usize| i as int);
                    let mut i: usize = 0;
                    while i < files.len() && files[i] != selected
                        invariant
                            i <= files.len(),
                            places == files@.map_values(|i: usize| i as int),
                            forall|k: int| 0 <= k < i ==> #[trigger] files@[k] != selected,
                        decreases files.len() - i,
                    {
                        i += 1;
                    }
                    proof {
                        lemma_scrolls_ascend(work.artifacts@, work.artifacts.len() as int);
                        if i < files.len() {
                            assert(places[i as int] == selected);
                            let first = places.index_of(selected as int);
                            assert(places.contains(selected as int));
                            assert(places[first] == selected);
                            assert(first == i);
                        } else if places.contains(selected as int) {
                            let k = choose|k: int|
                                0 <= k < places.len() && places[k] == selected as int;
                            assert(files@[k] == selected);
                        }
                    }
                    if i < files.len() {
                        scroll = Some(i);
                    }
                }
            },
        }
        self.screen.artifact = selected;
        if let Some(scroll) = scroll {
            self.select_split(scroll);
        }
    }

    /// The score that is to be heard: the opened one where it is previewed, else the result, or
    /// without one what the work would be done on.
    pub fn heard_score(&self) -> (r: Option<&Score>)
        ensures
            match r {
                Some(score) => if !self.screen.show_original && result_of(*self) is Some {
                    result_of(*self)->Some_0.score == *score
                } else {
                    input_of(*self) == Some(score@)
                },
                None => (self.screen.show_original || result_of(*self) is None) && input_of(
                    *self,
                ) is None,
            },
    {
        if !self.screen.show_original {
            if let Some(work) = self.result() {
                return Some(&work.score);
            }
        }
        self.input_source()
    }

    /// Tells whether the player has to be given another score, and notes that it has been.
    pub fn sync_playback(&mut self) -> (changed: bool)
        ensures
            changed == (old(self).heard != Some(
                (old(self).screen.revision, old(self).screen.show_original),
            )),
            *final(self) == if changed {
                Workspace {
                    heard: Some((old(self).screen.revision, old(self).screen.show_original)),
                    screen: Screen { start_tick: 0, follow_playhead: true, ..old(self).screen },
                    ..*old(self)
                }
            } else {
                *old(self)
            },
            is_sound(*old(self)) ==> is_sound(*final(self)),
    {
        if let Some(heard) = self.heard {
            if heard.0 == self.screen.revision && heard.1 == self.screen.show_original {
                return false;
            }
        }
        self.heard = Some((self.screen.revision, self.screen.show_original));
        self.screen.start_tick = 0;
        self.screen.follow_playhead = true;
        true
    }

    /// Ends a piece of work in the background with what came of it.
    pub fn settle(&mut self, done: Result<JobDone, String>)
        ensures
            ({
                let idle = Workspace { busy: false, ..*old(self) };
                match done {
                    Ok(JobDone::Loaded(source)) => opened(idle, *final(self), source),
                    Ok(JobDone::Worked(work)) => completed(idle, *final(self), work),
                    Ok(JobDone::Saved(path)) => *final(self) == (Workspace {
                        notice: Notice::Saved,
                        saved: Some(path),
                        ..idle
                    }),
                    Err(error) => *final(self) == (Workspace {
                        notice: Notice::Failed,
                        error: Some(error),
                        ..idle
                    }),
                }
            }),
            is_sound(*old(self)) ==> is_sound(*final(self)),
    {
        self.busy = false;
        match done {
            Ok(JobDone::Loaded(source)) => self.accept_source(source),
            Ok(JobDone::Worked(work)) => self.complete_result(work),
            Ok(JobDone::Saved(path)) => {
                self.notice = Notice::Saved;
                self.saved = Some(path);
            },
            Err(error) => {
                self.notice = Notice::Failed;
                self.error = Some(error);
            },
        }
    }
}

/// Turning to the other mode and back shows the result that was shown before: neither way of
/// work loses what the other one made.
pub proof fn law_modes_keep_results(w: Workspace, away: Workspace, back: Workspace, mode: Mode)
    requires
        turned(w, away, mode),
        turned(away, back, w.mode),
    ensures
        result_of(back) == result_of(w),
        back.fold == w.fold && back.split == w.split && back.source == w.source,
        back.split_uses_folded == w.split_uses_folded,
{
}

/// Whatever is split next is what the scrolls in sight were made of: setting another source
/// leaves no scrolls behind.
pub proof fn law_another_source_has_no_scrolls(before: Workspace, after: Workspace, folded: bool)
    requires
        retargeted(before, after, folded),
        after.split_uses_folded != before.split_uses_folded,
    ensures
        after.split is None,
        after.mode == Mode::Split ==> result_of(after) is None,
        after.fold == before.fold && after.source == before.source,
{
}

/// After a score has been folded, splitting works on what came out, and the opened score is
/// untouched.
pub proof fn law_split_follows_fold(
    before: Workspace,
    folded: Workspace,
    after: Workspace,
    work: WorkResult,
)
    requires
        completed(before, folded, work),
        work.kind == WorkKind::Fold,
        !before.busy,
        turned(folded, after, Mode::Split),
    ensures
        input_of(after) == Some(work.score@),
        result_of(after) is None,
        after.source == before.source,
        after.fold == Some(work),
{
}

/// Turning to a scroll and turning to its file come to the same.
pub proof fn law_scroll_and_file_agree(
    before: Workspace,
    by_scroll: Workspace,
    by_file: Workspace,
    scroll: int,
)
    requires
        scroll_file(before, scroll) is Some,
        scrolled(before, by_scroll, scroll),
        picked(before, by_file, scroll_file(before, scroll)->Some_0),
    ensures
        by_scroll == by_file,
        by_file.screen.scroll == scroll as usize,
{
    let work = result_of(before)->Some_0;
    let files = scrolls_in(work.artifacts@);
    let file = files[scroll];
    lemma_scrolls_ascend(work.artifacts@, work.artifacts@.len() as int);
    assert(files.contains(file));
    let first = files.index_of(file);
    assert(files[first] == file);
    assert(first == scroll);
}

} // verus!
