//! The pieces of work on a score and the files that come out of them.
use crate::chunk::text_views;
use crate::meta::with_entry;
use crate::mmi::{score_text, serialize_mmi};
use crate::score::{flat, Score, ScoreView, TrackView};
use crate::scroll::{copy_texts, scroll_views, ScrollChunk, ScrollView, SplitError, SplitOptions};
use crate::shapes::opening;
use crate::split::{is_lossless, is_reference, lossless_error, reference_error, split_score, split_score_python};
use crate::storage::law_pieces_joined;
use crate::text::{begins_with, chars_of, copy_chars, has_prefix, joined, number_text, padded_front, pieces, push_count, push_padded, push_text, split_chars, string_of, string_views, views};
use crate::verify::{score_report, verify_scores};
use vstd::prelude::*;

verus! {

/// A file to be written: its name, its text, and the texts of its parts.
#[derive(Debug)]
pub struct Artifact {
    pub name: String,
    pub text: String,
    pub game_parts: Vec<Vec<String>>,
    pub tempo_note_splits: usize,
}

pub struct ArtifactView {
    pub name: Seq<char>,
    pub text: Seq<char>,
    pub game_parts: Seq<Seq<Seq<char>>>,
    pub tempo_note_splits: int,
}

impl View for Artifact {
    type V = ArtifactView;

    open spec fn view(&self) -> ArtifactView {
        ArtifactView {
            name: self.name@,
            text: self.text@,
            game_parts: text_views(self.game_parts@),
            tempo_note_splits: self.tempo_note_splits as int,
        }
    }
}

pub open spec fn artifact_views(artifacts: Seq<Artifact>) -> Seq<ArtifactView> {
    Seq::new(artifacts.len(), |i: int| artifacts[i]@)
}

/// The texts of a score's parts, track by track.
#[derive(Debug)]
pub struct GameExport {
    pub parts: Vec<Vec<String>>,
    pub tempo_note_splits: usize,
}

/// Why a piece of work could not be done.
#[derive(Debug)]
pub enum WorkError {
    /// The text of a track, counted from one, is not complete.
    NoPayload { track: usize },
    /// Neither way of cutting the score led to an end.
    Split { reference: SplitError, error: SplitError },
}

/// What stands between the opening word and the closing mark of a track's text.
pub open spec fn payload(mml: Seq<char>) -> Option<Seq<char>> {
    if !begins_with(mml, opening()) {
        None
    } else {
        let rest = mml.skip(4);
        if rest.len() > 0 && rest.last() == ';' {
            Some(rest.drop_last())
        } else {
            None
        }
    }
}

/// The texts of the parts of the first tracks, or the first track, counted from
/// one, whose text is not complete.
pub open spec fn exported(tracks: Seq<TrackView>, n: int) -> Result<Seq<Seq<Seq<char>>>, int>
    decreases n,
{
    if n <= 0 {
        Ok(Seq::empty())
    } else {
        match exported(tracks, n - 1) {
            Err(e) => Err(e),
            Ok(parts) => match payload(tracks[n - 1].mml) {
                None => Err(n),
                Some(body) => Ok(parts.push(pieces(body, ','))),
            },
        }
    }
}

/// The texts of the parts of a score.
pub open spec fn export_of(score: ScoreView) -> Result<Seq<Seq<Seq<char>>>, int> {
    exported(score.tracks, score.tracks.len() as int)
}

proof fn lemma_exported_fails(tracks: Seq<TrackView>, from: int, to: int)
    requires
        0 <= from <= to,
        exported(tracks, from) is Err,
    ensures
        exported(tracks, to) == exported(tracks, from),
    decreases to - from,
{
    if from < to {
        lemma_exported_fails(tracks, from, to - 1);
    }
}

/// What is exported of a track is its own text, cut at the commas: set together
/// again and framed, the parts are the text that they were taken from.
pub proof fn law_export_keeps_text(tracks: Seq<TrackView>, n: int, i: int)
    requires
        0 <= i < n <= tracks.len(),
        exported(tracks, n) is Ok,
    ensures
        exported(tracks, n)->Ok_0.len() == n,
        opening() + joined(exported(tracks, n)->Ok_0[i], ',') + seq![';'] == tracks[i].mml,
    decreases n,
{
    if i < n - 1 {
        law_export_keeps_text(tracks, n - 1, i);
    } else {
        lemma_exported_length(tracks, n - 1);
        let mml = tracks[i].mml;
        let body = payload(mml)->Some_0;
        law_pieces_joined(body, ',');
        assert(mml =~= mml.take(4) + mml.skip(4));
        assert(mml.skip(4) =~= body.push(';'));
        assert(opening() + body + seq![';'] =~= mml);
    }
}

proof fn lemma_exported_length(tracks: Seq<TrackView>, n: int)
    requires
        exported(tracks, n) is Ok,
        n >= 0,
    ensures
        exported(tracks, n)->Ok_0.len() == n,
    decreases n,
{
    if n > 0 {
        lemma_exported_length(tracks, n - 1);
    }
}

fn to_strings(parts: &Vec<Vec<char>>) -> (r: Vec<String>)
    ensures
        string_views(r@) == views(parts@),
{
    let mut r: Vec<String> = Vec::new();
    let mut i: usize = 0;
    while i < parts.len()
        invariant
            i <= parts.len(),
            string_views(r@) == views(parts@).take(i as int),
        decreases parts.len() - i,
    {
        let ghost before = string_views(r@);
        let text = string_of(&parts[i]);
        r.push(text);
        proof {
            assert(string_views(r@) =~= before.push(parts@[i as int]@));
            assert(string_views(r@) =~= views(parts@).take(i + 1));
        }
        i += 1;
    }
    proof {
        assert(views(parts@).take(i as int) =~= views(parts@));
    }
    r
}

/// Takes the text of a track apart.
fn track_parts(mml: &str) -> (r: Option<Vec<String>>)
    ensures
        match r {
            Some(parts) => payload(mml@) is Some && string_views(parts@) == pieces(
                payload(mml@)->Some_0,
                ',',
            ),
            None => payload(mml@) is None,
        },
{
    let chars = chars_of(mml);
    let mut word: Vec<char> = Vec::new();
    word.push('M');
    word.push('M');
    word.push('L');
    word.push('@');
    proof {
        assert(word@ =~= opening());
    }
    if !has_prefix(&chars, &word) || chars.len() < 5 || chars[chars.len() - 1] != ';' {
        return None;
    }
    let body = copy_chars(&chars, 4, chars.len() - 1);
    proof {
        assert(body@ =~= mml@.skip(4).drop_last());
    }
    Some(to_strings(&split_chars(&body, ',')))
}

/// Takes the texts of the parts out of the texts of a score's tracks.
pub fn game_export(score: &Score) -> (r: Result<GameExport, WorkError>)
    ensures
        match r {
            Ok(export) => export_of(score@) == Ok::<_, int>(text_views(export.parts@))
                && export.tempo_note_splits == 0,
            Err(WorkError::NoPayload { track }) => export_of(score@) == Err::<
                Seq<Seq<Seq<char>>>,
                int,
            >(track as int),
            Err(_) => false,
        },
{
    let mut parts: Vec<Vec<String>> = Vec::new();
    let mut i: usize = 0;
    proof {
        assert(text_views(parts@) =~= Seq::<Seq<Seq<char>>>::empty());
    }
    while i < score.tracks.len()
        invariant
            i <= score.tracks.len(),
            exported(score@.tracks, i as int) == Ok::<_, int>(text_views(parts@)),
        decreases score.tracks.len() - i,
    {
        match track_parts(score.tracks[i].mml.as_str()) {
            None => {
                proof {
                    lemma_exported_fails(score@.tracks, i + 1, score@.tracks.len() as int);
                }
                return Err(WorkError::NoPayload { track: i + 1 });
            },
            Some(texts) => {
                let ghost before = text_views(parts@);
                parts.push(texts);
                proof {
                    assert(text_views(parts@) =~= before.push(string_views(texts@)));
                }
            },
        }
        i += 1;
    }
    Ok(GameExport { parts, tempo_note_splits: 0 })
}

/// Connects the texts of all parts by commas, track by track and part by part.
pub fn game_text(parts: &[Vec<String>]) -> (text: String)
    ensures
        text@ == joined(flat(text_views(parts@)), ','),
{
    let mut text: Vec<char> = Vec::new();
    let mut first: bool = true;
    let ghost all = text_views(parts@);
    let ghost mut done: Seq<Seq<char>> = Seq::empty();
    let mut ti: usize = 0;
    proof {
        assert(all.take(0) =~= Seq::<Seq<Seq<char>>>::empty());
        assert(text@ =~= joined(done, ','));
    }
    while ti < parts.len()
        invariant
            ti <= parts.len(),
            all == text_views(parts@),
            done == flat(all.take(ti as int)),
            first == (done.len() == 0),
            text@ == joined(done, ','),
        decreases parts.len() - ti,
    {
        let track = &parts[ti];
        let ghost before = done;
        let ghost texts = string_views(track@);
        let mut pi: usize = 0;
        proof {
            assert(before + texts.take(0) =~= before);
        }
        while pi < track.len()
            invariant
                pi <= track.len(),
                texts == string_views(track@),
                done == before + texts.take(pi as int),
                first == (done.len() == 0),
                text@ == joined(done, ','),
            decreases track.len() - pi,
        {
            if !first {
                text.push(',');
            }
            let ghost earlier = done;
            push_text(&mut text, track[pi].as_str());
            first = false;
            proof {
                let part = texts[pi as int];
                done = earlier.push(part);
                assert(done.drop_last() =~= earlier);
                assert(done =~= before + texts.take(pi + 1));
                assert(text@ =~= joined(done, ','));
            }
            pi += 1;
        }
        proof {
            assert(texts.take(pi as int) =~= texts);
            assert(all[ti as int] == texts);
            assert(all.take(ti + 1).drop_last() =~= all.take(ti as int));
            assert(all.take(ti + 1).last() == texts);
        }
        ti += 1;
    }
    proof {
        assert(all.take(ti as int) =~= all);
    }
    string_of(&text)
}

#[derive(Clone, Copy, Debug, PartialEq, Eq, Structural)]
pub enum WorkKind {
    Import,
    Fold,
    Split,
    Verify,
}

/// Where a scroll begins and ends, and how long its parts are.
#[derive(Debug)]
pub struct SplitChunkPreview {
    pub start: i64,
    pub end: i64,
    pub part_widths: Vec<Vec<usize>>,
}

pub struct PreviewView {
    pub start: int,
    pub end: int,
    pub part_widths: Seq<Seq<int>>,
}

pub open spec fn width_views(widths: Seq<Vec<usize>>) -> Seq<Seq<int>> {
    Seq::new(widths.len(), |i: int| widths[i]@.map_values(|w: usize| w as int))
}

impl View for SplitChunkPreview {
    type V = PreviewView;

    open spec fn view(&self) -> PreviewView {
        PreviewView {
            start: self.start as int,
            end: self.end as int,
            part_widths: width_views(self.part_widths@),
        }
    }
}

/// The lengths that are allowed and those that the scrolls have.
#[derive(Debug)]
pub struct SplitPreview {
    pub limit: usize,
    pub chunks: Vec<SplitChunkPreview>,
}

pub open spec fn preview_views(chunks: Seq<SplitChunkPreview>) -> Seq<PreviewView> {
    Seq::new(chunks.len(), |i: int| chunks[i]@)
}

/// What comes out of a piece of work.
#[derive(Debug)]
pub struct WorkResult {
    pub kind: WorkKind,
    pub score: Score,
    pub report: String,
    pub artifacts: Vec<Artifact>,
    pub split: Option<SplitPreview>,
}

/// A score as a file.
pub open spec fn score_file(score: ScoreView, name: Seq<char>) -> Result<ArtifactView, int> {
    match export_of(score) {
        Err(e) => Err(e),
        Ok(parts) => Ok(
            ArtifactView { name, text: score_text(score), game_parts: parts, tempo_note_splits: 0 },
        ),
    }
}

fn make_file(score: &Score, name: String) -> (r: Result<Artifact, WorkError>)
    ensures
        match r {
            Ok(artifact) => score_file(score@, name@) == Ok::<_, int>(artifact@),
            Err(WorkError::NoPayload { track }) => score_file(score@, name@) == Err::<
                ArtifactView,
                int,
            >(track as int),
            Err(_) => false,
        },
{
    match game_export(score) {
        Err(e) => Err(e),
        Ok(game) => Ok(
            Artifact {
                name,
                text: serialize_mmi(score),
                game_parts: game.parts,
                tempo_note_splits: game.tempo_note_splits,
            },
        ),
    }
}

fn name_of(stem: &str, end: &str) -> (name: String)
    ensures
        name@ == stem@ + end@,
{
    let mut name = chars_of(stem);
    push_text(&mut name, end);
    string_of(&name)
}

/// What saving a score as it is comes to.
pub open spec fn export_outcome(
    score: ScoreView,
    stem: Seq<char>,
    r: Result<WorkResult, WorkError>,
) -> bool {
    match r {
        Ok(work) => {
            &&& score_file(score, stem + ".mmi"@) is Ok
            &&& work.kind == WorkKind::Import
            &&& work.score@ == score
            &&& work.report@ == Seq::<char>::empty()
            &&& artifact_views(work.artifacts@) == seq![score_file(score, stem + ".mmi"@)->Ok_0]
            &&& work.split is None
        },
        Err(WorkError::NoPayload { track }) => export_of(score) == Err::<
            Seq<Seq<Seq<char>>>,
            int,
        >(track as int),
        Err(_) => false,
    }
}

/// Makes a file of a score as it is.
pub fn source_export(score: &Score, stem: &str) -> (r: Result<WorkResult, WorkError>)
    ensures
        export_outcome(score@, stem@, r),
{
    match make_file(score, name_of(stem, ".mmi")) {
        Err(e) => Err(e),
        Ok(file) => {
            let mut artifacts: Vec<Artifact> = Vec::new();
            artifacts.push(file);
            proof {
                assert(artifact_views(artifacts@) =~= seq![
                    score_file(score@, stem@ + ".mmi"@)->Ok_0,
                ]);
            }
            let none: Vec<char> = Vec::new();
            let report = string_of(&none);
            proof {
                assert(report@ =~= Seq::<char>::empty());
            }
            Ok(
                WorkResult {
                    kind: WorkKind::Import,
                    score: score.clone(),
                    report,
                    artifacts,
                    split: None,
                },
            )
        },
    }
}

/// A score with one of its tracks only, named as the first.
pub open spec fn single(score: ScoreView, i: int) -> ScoreView {
    ScoreView {
        head: score.head,
        tracks: seq![
            TrackView {
                mml: score.tracks[i].mml,
                meta: with_entry(score.tracks[i].meta, "name"@, "Track1"@),
                parts: score.tracks[i].parts,
                tempos: score.tracks[i].tempos,
            },
        ],
        tail: score.tail,
    }
}

pub open spec fn single_name(stem: Seq<char>, i: int) -> Seq<char> {
    stem + "_folded_t"@ + number_text(i + 1) + ".mmi"@
}

/// The files of an arrangement: the whole, and the first tracks by themselves.
pub open spec fn arrangement(score: ScoreView, stem: Seq<char>, n: int) -> Result<
    Seq<ArtifactView>,
    int,
>
    decreases n,
{
    if n <= 0 {
        match score_file(score, stem + "_folded.mmi"@) {
            Err(e) => Err(e),
            Ok(file) => Ok(seq![file]),
        }
    } else {
        match arrangement(score, stem, n - 1) {
            Err(e) => Err(e),
            Ok(files) => match score_file(single(score, n - 1), single_name(stem, n - 1)) {
                Err(e) => Err(e),
                Ok(file) => Ok(files.push(file)),
            },
        }
    }
}

proof fn lemma_arrangement_fails(score: ScoreView, stem: Seq<char>, from: int, to: int)
    requires
        0 <= from <= to,
        arrangement(score, stem, from) is Err,
    ensures
        arrangement(score, stem, to) == arrangement(score, stem, from),
    decreases to - from,
{
    if from < to {
        lemma_arrangement_fails(score, stem, from, to - 1);
    }
}

/// Takes one track of a score by itself.
fn take_single(score: &Score, i: usize) -> (r: Score)
    requires
        i < score.tracks.len(),
    ensures
        r@ == single(score@, i as int),
{
    let mut r = score.clone();
    let mut track = score.tracks[i].clone();
    track.meta.insert(name_of("name", ""), name_of("Track1", ""));
    proof {
        reveal_strlit("");
        assert("name"@ + ""@ =~= "name"@);
        assert("Track1"@ + ""@ =~= "Track1"@);
    }
    let mut tracks: Vec<crate::score::Track> = Vec::new();
    tracks.push(track);
    r.tracks = tracks;
    proof {
        assert(r@.tracks =~= single(score@, i as int).tracks);
    }
    r
}

/// What saving an arranged score comes to.
pub open spec fn arrange_outcome(
    score: ScoreView,
    report: Seq<char>,
    stem: Seq<char>,
    track_files: bool,
    r: Result<WorkResult, WorkError>,
) -> bool {
    let n: int = if track_files {
        score.tracks.len() as int
    } else {
        0
    };
    match r {
        Ok(work) => {
            &&& work.kind == WorkKind::Fold
            &&& work.score@ == score
            &&& work.report@ == report
            &&& arrangement(score, stem, n) == Ok::<_, int>(artifact_views(work.artifacts@))
            &&& work.split is None
        },
        Err(WorkError::NoPayload { track }) => arrangement(score, stem, n) == Err::<
            Seq<ArtifactView>,
            int,
        >(track as int),
        Err(_) => false,
    }
}

/// Makes the files of an arranged score: the whole, and where it is asked for
/// each track by itself.
pub fn arrange(score: Score, report: String, stem: &str, track_files: bool) -> (r: Result<
    WorkResult,
    WorkError,
>)
    ensures
        arrange_outcome(score@, report@, stem@, track_files, r),
{
    let mut artifacts: Vec<Artifact> = Vec::new();
    let ghost n: int = if track_files {
        score@.tracks.len() as int
    } else {
        0
    };
    match make_file(&score, name_of(stem, "_folded.mmi")) {
        Err(e) => {
            proof {
                lemma_arrangement_fails(score@, stem@, 0, n);
            }
            return Err(e);
        },
        Ok(file) => {
            artifacts.push(file);
            proof {
                assert(artifact_views(artifacts@) =~= seq![file@]);
            }
        },
    }
    let mut i: usize = 0;
    while track_files && i < score.tracks.len()
        invariant
            i <= score.tracks.len(),
            i > 0 ==> track_files,
            n == (if track_files {
                score@.tracks.len() as int
            } else {
                0int
            }),
            arrangement(score@, stem@, i as int) == Ok::<_, int>(artifact_views(artifacts@)),
        decreases score.tracks.len() - i,
    {
        let one = take_single(&score, i);
        let mut name = chars_of(stem);
        push_text(&mut name, "_folded_t");
        push_count(&mut name, i as u128 + 1);
        push_text(&mut name, ".mmi");
        match make_file(&one, string_of(&name)) {
            Err(e) => {
                proof {
                    lemma_arrangement_fails(score@, stem@, i + 1, n);
                }
                return Err(e);
            },
            Ok(file) => {
                let ghost before = artifact_views(artifacts@);
                artifacts.push(file);
                proof {
                    assert(artifact_views(artifacts@) =~= before.push(file@));
                }
            },
        }
        i += 1;
    }
    Ok(WorkResult { kind: WorkKind::Fold, score, report, artifacts, split: None })
}

/// The file that a scroll makes.
pub open spec fn scroll_file(scroll: ScrollView, stem: Seq<char>, i: int) -> ArtifactView {
    ArtifactView {
        name: stem + "_"@ + padded_front(number_text(i + 1), 2, '0') + ".mmi"@,
        text: score_text(scroll.score),
        game_parts: scroll.texts,
        tempo_note_splits: 0,
    }
}

pub open spec fn scroll_files(scrolls: Seq<ScrollView>, stem: Seq<char>) -> Seq<ArtifactView> {
    Seq::new(scrolls.len(), |i: int| scroll_file(scrolls[i], stem, i))
}

/// How long the parts of texts are, track by track.
pub open spec fn lengths(texts: Seq<Seq<Seq<char>>>) -> Seq<Seq<int>> {
    Seq::new(texts.len(), |i: int| texts[i].map_values(|t: Seq<char>| t.len() as int))
}

pub open spec fn scroll_preview(scroll: ScrollView) -> PreviewView {
    PreviewView { start: scroll.start, end: scroll.end, part_widths: lengths(scroll.texts) }
}

pub open spec fn scroll_previews(scrolls: Seq<ScrollView>) -> Seq<PreviewView> {
    Seq::new(scrolls.len(), |i: int| scroll_preview(scrolls[i]))
}

/// What the report adds where the reference rules could not cut the score.
pub open spec fn fallback_note() -> Seq<char> {
    "\nPython 방식에서 표현할 수 없는 짧은 구간이 있어, 음표를 보존하는 절단점을 사용했습니다.\n"@
}

fn measure(texts: &Vec<Vec<String>>) -> (r: Vec<Vec<usize>>)
    ensures
        width_views(r@) == lengths(text_views(texts@)),
{
    let mut r: Vec<Vec<usize>> = Vec::new();
    let ghost all = lengths(text_views(texts@));
    let mut ti: usize = 0;
    proof {
        assert(width_views(r@) =~= all.take(0));
    }
    while ti < texts.len()
        invariant
            ti <= texts.len(),
            all == lengths(text_views(texts@)),
            width_views(r@) == all.take(ti as int),
        decreases texts.len() - ti,
    {
        let track = &texts[ti];
        let ghost wanted = all[ti as int];
        let mut widths: Vec<usize> = Vec::new();
        let mut pi: usize = 0;
        while pi < track.len()
            invariant
                pi <= track.len(),
                wanted == string_views(track@).map_values(|t: Seq<char>| t.len() as int),
                widths.len() == pi,
                forall|k: int| 0 <= k < pi ==> #[trigger] widths[k] == wanted[k],
            decreases track.len() - pi,
        {
            widths.push(chars_of(track[pi].as_str()).len());
            pi += 1;
        }
        let ghost before = width_views(r@);
        r.push(widths);
        proof {
            assert(widths@.map_values(|w: usize| w as int) =~= wanted);
            assert(width_views(r@) =~= before.push(wanted));
            assert(width_views(r@) =~= all.take(ti + 1));
        }
        ti += 1;
    }
    proof {
        assert(all.take(ti as int) =~= all);
    }
    r
}

fn scroll_artifacts(chunks: &Vec<ScrollChunk>, stem: &str) -> (r: Vec<Artifact>)
    requires
        forall|i: int| 0 <= i < chunks.len() ==> (#[trigger] chunks[i]).is_plain(),
    ensures
        artifact_views(r@) == scroll_files(scroll_views(chunks@), stem@),
{
    let ghost all = scroll_files(scroll_views(chunks@), stem@);
    let mut r: Vec<Artifact> = Vec::new();
    let mut i: usize = 0;
    proof {
        assert(artifact_views(r@) =~= all.take(0));
    }
    while i < chunks.len()
        invariant
            i <= chunks.len(),
            all == scroll_files(scroll_views(chunks@), stem@),
            forall|i: int| 0 <= i < chunks.len() ==> (#[trigger] chunks[i]).is_plain(),
            artifact_views(r@) == all.take(i as int),
        decreases chunks.len() - i,
    {
        let chunk = &chunks[i];
        let mut name = chars_of(stem);
        push_text(&mut name, "_");
        push_padded(&mut name, i as u128 + 1, 2, '0');
        push_text(&mut name, ".mmi");
        let ghost before = artifact_views(r@);
        let file = Artifact {
            name: string_of(&name),
            text: serialize_mmi(&chunk.score),
            game_parts: copy_texts(&chunk.game_parts),
            tempo_note_splits: chunk.tempo_note_splits,
        };
        r.push(file);
        proof {
            assert(chunks[i as int].is_plain());
            assert(file@ == all[i as int]);
            assert(artifact_views(r@) =~= before.push(file@));
            assert(artifact_views(r@) =~= all.take(i + 1));
        }
        i += 1;
    }
    proof {
        assert(all.take(i as int) =~= all);
    }
    r
}

fn scroll_chunks(chunks: &Vec<ScrollChunk>) -> (r: Vec<SplitChunkPreview>)
    requires
        forall|i: int| 0 <= i < chunks.len() ==> (#[trigger] chunks[i]).is_plain(),
    ensures
        preview_views(r@) == scroll_previews(scroll_views(chunks@)),
{
    let ghost all = scroll_previews(scroll_views(chunks@));
    let mut r: Vec<SplitChunkPreview> = Vec::new();
    let mut i: usize = 0;
    proof {
        assert(preview_views(r@) =~= all.take(0));
    }
    while i < chunks.len()
        invariant
            i <= chunks.len(),
            all == scroll_previews(scroll_views(chunks@)),
            forall|i: int| 0 <= i < chunks.len() ==> (#[trigger] chunks[i]).is_plain(),
            preview_views(r@) == all.take(i as int),
        decreases chunks.len() - i,
    {
        let chunk = &chunks[i];
        let ghost before = preview_views(r@);
        let preview = SplitChunkPreview {
            start: chunk.start,
            end: chunk.end,
            part_widths: measure(&chunk.game_parts),
        };
        r.push(preview);
        proof {
            assert(chunks[i as int].is_plain());
            assert(preview@ == all[i as int]);
            assert(preview_views(r@) =~= before.push(preview@));
            assert(preview_views(r@) =~= all.take(i + 1));
        }
        i += 1;
    }
    proof {
        assert(all.take(i as int) =~= all);
    }
    r
}

/// Whether a result holds the files and the preview of some scrolls.
pub open spec fn presents(
    work: WorkResult,
    score: ScoreView,
    scrolls: Seq<ScrollView>,
    limit: int,
    stem: Seq<char>,
) -> bool {
    &&& work.kind == WorkKind::Split
    &&& work.score@ == score
    &&& artifact_views(work.artifacts@) == scroll_files(scrolls, stem)
    &&& work.split is Some
    &&& work.split->Some_0.limit == limit
    &&& preview_views(work.split->Some_0.chunks@) == scroll_previews(scrolls)
}

/// Whether a result presents scrolls that the reference rules give.
pub open spec fn by_reference(
    work: WorkResult,
    score: ScoreView,
    options: SplitOptions,
    stem: Seq<char>,
) -> bool {
    exists|scrolls: Seq<ScrollView>| #[trigger]
        is_reference(score, options, scrolls, work.report@) && presents(
            work,
            score,
            scrolls,
            options.limit as int,
            stem,
        )
}

/// Whether a result presents scrolls cut without loss, and says so.
pub open spec fn by_fallback(
    work: WorkResult,
    score: ScoreView,
    options: SplitOptions,
    stem: Seq<char>,
) -> bool {
    exists|scrolls: Seq<ScrollView>, report: Seq<char>| #[trigger]
        is_lossless(score, options, scrolls, report) && work.report@ == report + fallback_note()
            && presents(work, score, scrolls, options.limit as int, stem)
}

/// What cutting a score into scrolls comes to.
pub open spec fn scrolls_outcome(
    score: ScoreView,
    options: SplitOptions,
    stem: Seq<char>,
    r: Result<WorkResult, WorkError>,
) -> bool {
    match r {
        Ok(work) => by_reference(work, score, options, stem) || (exists|e: SplitError| #[trigger]
            reference_error(score, options, e) && by_fallback(work, score, options, stem)),
        Err(WorkError::Split { reference, error }) => reference_error(score, options, reference)
            && lossless_error(score, options, error),
        Err(_) => false,
    }
}

/// Cuts a score into scrolls and makes a file of each: by the reference rules, or
/// where these come to no end without losing anything.
pub fn scrolls(score: &Score, options: &SplitOptions, stem: &str) -> (r: Result<
    WorkResult,
    WorkError,
>)
    ensures
        scrolls_outcome(score@, *options, stem@, r),
{
    match split_score_python(score, options) {
        Ok(result) => {
            let artifacts = scroll_artifacts(&result.chunks, stem);
            let chunks = scroll_chunks(&result.chunks);
            let ghost views = scroll_views(result.chunks@);
            let work = WorkResult {
                kind: WorkKind::Split,
                score: score.clone(),
                report: result.report,
                artifacts,
                split: Some(SplitPreview { limit: options.limit, chunks }),
            };
            proof {
                assert(is_reference(score@, *options, views, work.report@));
            }
            Ok(work)
        },
        Err(reference) => match split_score(score, options) {
            Err(error) => Err(WorkError::Split { reference, error }),
            Ok(result) => {
                let artifacts = scroll_artifacts(&result.chunks, stem);
                let chunks = scroll_chunks(&result.chunks);
                let ghost views = scroll_views(result.chunks@);
                let ghost own = result.report@;
                let mut report = chars_of(result.report.as_str());
                push_text(
                    &mut report,
                    "\nPython 방식에서 표현할 수 없는 짧은 구간이 있어, 음표를 보존하는 절단점을 사용했습니다.\n",
                );
                let work = WorkResult {
                    kind: WorkKind::Split,
                    score: score.clone(),
                    report: string_of(&report),
                    artifacts,
                    split: Some(SplitPreview { limit: options.limit, chunks }),
                };
                proof {
                    assert(reference_error(score@, *options, reference));
                    assert(is_lossless(score@, *options, views, own));
                }
                Ok(work)
            },
        },
    }
}

/// The file that holds a report.
pub open spec fn report_file(stem: Seq<char>, report: Seq<char>) -> ArtifactView {
    ArtifactView {
        name: stem + "_verification.txt"@,
        text: report,
        game_parts: Seq::empty(),
        tempo_note_splits: 0,
    }
}

/// Makes a file of the report that holds an output against its source. The share
/// of kept notes comes written as a percentage.
pub fn compare(source: &Score, output: Score, stem: &str, percent: &str) -> (work: WorkResult)
    ensures
        work.kind == WorkKind::Verify,
        work.score@ == output@,
        work.report@ == score_report(source@, output@, percent@),
        artifact_views(work.artifacts@) == seq![report_file(stem@, work.report@)],
        work.split is None,
{
    let report = verify_scores(source, &output, percent);
    let parts: Vec<Vec<String>> = Vec::new();
    let mut artifacts: Vec<Artifact> = Vec::new();
    let file = Artifact {
        name: name_of(stem, "_verification.txt"),
        text: string_of(&chars_of(report.as_str())),
        game_parts: parts,
        tempo_note_splits: 0,
    };
    proof {
        assert(text_views(parts@) =~= Seq::<Seq<Seq<char>>>::empty());
    }
    artifacts.push(file);
    proof {
        assert(artifact_views(artifacts@) =~= seq![report_file(stem@, report@)]);
    }
    WorkResult { kind: WorkKind::Verify, score: output, report, artifacts, split: None }
}

} // verus!
