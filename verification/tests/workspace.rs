//! What a window over one score keeps and shows.
use mmlfold::arranging::{arrange_slots, pick_notes};
use mmlfold::assemble::finish;
use mmlfold::audibility::Audibility;
use mmlfold::encode::Ensemble;
use mmlfold::fold::{Gain, Layout, WorkingNote};
use mmlfold::instruments::Instrument;
use mmlfold::import::parse_midi;
use mmlfold::mmi::parse_mmi;
use mmlfold::musical::{line_jobs, musical_homes, place_rest, LineKind};
use mmlfold::onsets::Line;
use mmlfold::placing::Spot;
use mmlfold::report::{fold_report, Findings};
use mmlfold::scroll::SplitOptions;
use mmlfold::workflow::{arrange, scrolls, WorkKind, WorkResult};
use mmlfold::workspace::{Export, JobDone, Loaded, Mode, Notice, Tab, Workspace};
use mmlfold::{Note, Score};

fn loaded(path: &str, stem: &str, score: Score) -> Loaded {
    Loaded::new(path.to_owned(), stem.to_owned(), score)
}

/// A score of six tracks, some of which have the same name.
fn source_with_six_tracks(path: &str) -> Loaded {
    let mut text = "[mml-score]\nversion=1\ntempo=0T120\n".to_owned();
    for index in 0..6 {
        text.push_str(&format!(
            "mml-track=MML@t120o{}l16{},o3l8{},o2l4{};\nname=Track{}\nvisible=true\n",
            3 + index % 3,
            "cdef".repeat(24),
            "ga".repeat(24),
            "ce".repeat(12),
            1 + index / 3,
        ));
    }
    loaded(path, "six-track-source", parse_mmi(&text).unwrap())
}

/// A number that orders as a float does.
fn key(value: f64) -> i64 {
    let bits = value.to_bits() as i64;
    bits ^ ((((bits >> 63) as u64) >> 1) as i64)
}

fn bare(notes: &[WorkingNote]) -> Vec<Note> {
    notes.iter().map(|n| n.note).collect()
}

fn extract_line(
    notes: &[WorkingNote],
    pool: &Vec<usize>,
    kind: LineKind,
    taken: &mut Vec<bool>,
) -> Vec<usize> {
    let mut line = Line::new(bare(notes), pool, taken);
    let mut last: Option<i32> = None;
    while let Some(candidates) = line.candidates() {
        let keys = candidates
            .iter()
            .map(|&i| {
                let n = &notes[i];
                let mut value = 3.0 * f64::from(n.note.vel)
                    + 40.0 * f64::from(n.activity) / 2.0
                    + 0.5 * n.note.duration().min(192) as f64 / 24.0;
                match kind {
                    LineKind::Lead => value += 0.6 * f64::from(n.note.pitch),
                    LineKind::Bass => value -= 0.6 * f64::from(n.note.pitch),
                    LineKind::Mid => {}
                }
                if let Some(previous) = last {
                    value -= 0.7 * (f64::from(n.note.pitch) - f64::from(previous)).abs();
                }
                key(value)
            })
            .collect();
        let i = line.take(&keys);
        taken[i] = true;
        last = Some(notes[i].note.pitch);
    }
    line.finish()
}

/// Folds a score by roles into some tracks of three parts.
fn folded(score: &Score, tracks: usize, stem: &str) -> WorkResult {
    let layout = Layout::Roles;
    let picked = pick_notes(score, tracks * 3, Gain::Auto).unwrap();
    let notes = &picked.notes;
    let mut taken = vec![false; notes.len()];
    let mut lines = vec![Vec::new(); tracks * 3];
    for job in line_jobs(layout, tracks, 3) {
        lines[job.slot] = extract_line(notes, &picked.kept, job.kind, &mut taken);
    }
    place_rest(notes, &picked.kept, &taken, &mut lines, layout, tracks, 3);
    let homes = musical_homes(&bare(notes), &picked.kept, &lines, layout, tracks, 3);
    let ensemble = Ensemble {
        tracks,
        parts: 3,
        layout,
        volume_range: None,
    };
    let arranged = arrange_slots(notes, &picked.kept, &homes, None, score, &ensemble).unwrap();
    let mut stats = picked.stats;
    stats.spill = arranged.spill;
    let means = vec!["60.0".to_owned(); tracks * 3];
    let report = fold_report(&Findings {
        notes,
        kept: &picked.kept,
        slots: &arranged.slots,
        sequence: &arranged.sequence,
        stats,
        ensemble,
        gain: Gain::Auto,
        clipped: picked.clipped,
        exact_fallback: arranged.exact_fallback,
        attack_fallback: false,
        lead: Some(&homes.primary_lead),
        percent: "0.00",
        means: &means,
        tail: &score.tail,
    });
    assert!(report.starts_with(&format!("notes in  : {}\n", notes.len())));
    assert!(report.contains("layout    : roles"));
    arrange(arranged.score, report, stem, false).unwrap()
}

const LIMIT: usize = 48;

fn app() -> Workspace {
    let mut app = Workspace::new();
    app.accept_source(source_with_six_tracks("six-track-source.mmi"));
    app
}

fn run_job_with(app: &mut Workspace, tracks: usize) {
    let score = app.input_source().unwrap();
    let stem = app.stem();
    let work = match app.mode {
        Mode::Fold => folded(score, tracks, &stem),
        Mode::Split => {
            let options = SplitOptions {
                limit: LIMIT,
                ..SplitOptions::default()
            };
            scrolls(score, &options, &stem).unwrap()
        }
    };
    let files = work.artifacts.len();
    app.busy = true;
    app.settle(Ok(JobDone::Worked(work)));
    assert!(!app.busy);
    assert_eq!(app.notice, Notice::Done { files });
    assert!(app.error.is_none());
}

fn run_job(app: &mut Workspace) {
    run_job_with(app, 2);
}

fn texts(score: &Score) -> Vec<String> {
    score.tracks.iter().map(|t| t.mml.clone()).collect()
}

fn exported_kind(app: &Workspace) -> Option<WorkKind> {
    match app.export_result().unwrap() {
        Some(Export::Shown(work)) => Some(work.kind),
        Some(Export::Source(work)) => Some(work.kind),
        None => None,
    }
}

fn assert_split_tracks(app: &Workspace, count: usize) {
    let result = app.result().unwrap();
    assert!(result.kind == WorkKind::Split);
    assert_eq!(result.score.tracks.len(), count);
    assert!(result.split.as_ref().unwrap().chunks.len() > 1);
    for artifact in result.artifacts.iter().filter(|a| a.name.ends_with(".mmi")) {
        let score = parse_mmi(&artifact.text).unwrap();
        assert_eq!(score.tracks.len(), count, "{}", artifact.name);
        assert_eq!(artifact.game_parts.len(), count);
        for parts in &artifact.game_parts {
            assert_eq!(parts.len(), 3);
            assert!(parts.iter().all(|part| part.len() <= LIMIT));
        }
    }
}

#[test]
fn opening_midi_allows_direct_mmi_export_without_creating_an_arrangement() {
    let mut bytes = b"MThd\x00\x00\x00\x06\x00\x00\x00\x01\x01\xe0".to_vec();
    bytes.extend_from_slice(b"MTrk\x00\x00\x00\x14");
    bytes.extend_from_slice(&[
        0x00, 0xff, 0x51, 0x03, 0x07, 0xa1, 0x20, 0x00, 0x90, 0x3c, 0x64, 0x83, 0x60, 0x80, 0x3c,
        0x00, 0x00, 0xff, 0x2f, 0x00,
    ]);
    let mut import = parse_midi(&bytes).unwrap();
    while let Some(moment) = import.next_moment() {
        let seconds = moment.units as f64 / moment.denominator as f64 / 1_000_000.0;
        let desired = seconds * 96.0 * f64::from(moment.bpm) / 60.0;
        import
            .place(Spot {
                in_range: true,
                rounded: desired.round() as i64,
                over_half: desired - moment.target as f64 > 3.0,
            })
            .unwrap();
    }
    let mut app = app();
    run_job(&mut app);
    assert!(app.fold.is_some());
    app.busy = true;
    let score = finish(&import).unwrap();
    app.settle(Ok(JobDone::Loaded(loaded("folder/direct-input.MID", "direct-input", score))));
    assert!(app.sync_playback());
    assert!(app.can_save());
    assert!(app.result().is_none());
    assert!(app.fold.is_none());
    assert!(app.split.is_none());
    assert!(app.displayed_result().is_none());
    let original = &app.source.as_ref().unwrap().score;
    assert_eq!(original.all_notes().len(), 1);
    assert_eq!(original.all_notes()[0].pitch, 60);
    let revision = app.screen.revision;
    app.screen.follow_playhead = false;
    match app.export_result().unwrap() {
        Some(Export::Source(exported)) => {
            assert!(exported.kind == WorkKind::Import);
            assert_eq!(exported.artifacts.len(), 1);
            assert_eq!(exported.artifacts[0].name, "direct-input.mmi");
            let saved = parse_mmi(&exported.artifacts[0].text).unwrap();
            let original = &app.source.as_ref().unwrap().score;
            assert_eq!(saved.all_notes(), original.all_notes());
            assert_eq!(saved.tempos(), original.tempos());
        }
        _ => panic!("the opened file is what would be saved"),
    }
    assert_eq!(app.screen.revision, revision);
    assert!(!app.sync_playback());
    assert!(!app.screen.follow_playhead);
    assert!(app.result().is_none());

    app.screen.tab = Tab::Mml;
    assert!(app.result().is_none());
    assert_eq!(app.screen.revision, revision);
    app.set_mode(Mode::Split);
    assert!(app.can_save());
    assert_eq!(exported_kind(&app), Some(WorkKind::Import));
    assert_eq!(app.input_source().unwrap().all_notes().len(), 1);
}

#[test]
fn active_fold_and_split_outputs_take_precedence_over_direct_midi_export() {
    let mut app = app();
    app.accept_source(source_with_six_tracks("six-track-source.midi"));
    assert_eq!(exported_kind(&app), Some(WorkKind::Import));
    run_job(&mut app);
    let folded = app.result().unwrap().artifacts[0].text.clone();
    app.screen.show_original = true;
    match app.export_result().unwrap() {
        Some(Export::Shown(exported)) => {
            assert!(exported.kind == WorkKind::Fold);
            assert_eq!(exported.artifacts[0].text, folded);
        }
        _ => panic!("the folded score is what would be saved"),
    }

    app.set_mode(Mode::Split);
    assert!(app.split_uses_folded);
    assert!(!app.can_save());
    assert!(app.export_result().unwrap().is_none());
    run_job(&mut app);
    assert_split_tracks(&app, 2);
    assert_eq!(exported_kind(&app), Some(WorkKind::Split));

    app.set_split_source(false);
    assert!(app.result().is_none());
    match app.export_result().unwrap() {
        Some(Export::Source(exported)) => {
            assert!(exported.kind == WorkKind::Import);
            assert_eq!(exported.score.tracks.len(), 6);
        }
        _ => panic!("the opened file is what would be saved"),
    }
    app.set_mode(Mode::Fold);
    match app.export_result().unwrap() {
        Some(Export::Shown(exported)) => assert_eq!(exported.artifacts[0].text, folded),
        _ => panic!("the folded score is what would be saved"),
    }
    assert!(app.result().unwrap().kind == WorkKind::Fold);

    app.accept_source(source_with_six_tracks("six-track-source.mmi"));
    assert!(!app.can_save());
    assert!(app.export_result().unwrap().is_none());
}

#[test]
fn switching_to_fold_never_displays_the_previous_six_track_split() {
    let mut app = app();
    app.set_mode(Mode::Split);
    run_job(&mut app);
    assert_split_tracks(&app, 6);
    app.set_mode(Mode::Fold);
    assert!(app.result().is_none());
    assert!(app.screen.tab == Tab::Preview);
    assert_eq!(app.input_source().unwrap().tracks.len(), 6);
    app.set_mode(Mode::Split);
    assert_split_tracks(&app, 6);
}

#[test]
fn ordinary_split_tab_uses_the_two_track_fold_and_keeps_original() {
    let mut app = app();
    let original = texts(&app.source.as_ref().unwrap().score);
    let original_path = app.source.as_ref().unwrap().path.clone();
    run_job(&mut app);
    let folded_text = app.result().unwrap().artifacts[0].text.clone();
    assert_eq!(app.result().unwrap().score.tracks.len(), 2);
    app.set_mode(Mode::Split);
    assert!(app.split_uses_folded);
    assert_eq!(app.input_source().unwrap().tracks.len(), 2);
    assert!(app.result().is_none());
    run_job(&mut app);
    assert_split_tracks(&app, 2);
    app.set_mode(Mode::Fold);
    assert!(app.result().unwrap().kind == WorkKind::Fold);
    assert_eq!(app.result().unwrap().artifacts[0].text, folded_text);
    assert_eq!(texts(&app.source.as_ref().unwrap().score), original);
    assert_eq!(app.source.as_ref().unwrap().path, original_path);
}

#[test]
fn split_result_button_preserves_both_original_and_folded_result() {
    let mut app = app();
    let original = texts(&app.source.as_ref().unwrap().score);
    app.prepare_split();
    assert!(app.mode == Mode::Fold);
    run_job(&mut app);
    app.prepare_split();
    assert!(app.mode == Mode::Split);
    assert_eq!(app.input_source().unwrap().tracks.len(), 2);
    assert!(app.fold.is_some());
    assert_eq!(texts(&app.source.as_ref().unwrap().score), original);
    app.set_mode(Mode::Fold);
    assert_eq!(app.result().unwrap().score.tracks.len(), 2);
}

#[test]
fn changing_split_input_cannot_reuse_results_for_another_track_count() {
    let mut app = app();
    run_job(&mut app);
    app.set_mode(Mode::Split);
    run_job(&mut app);
    assert_split_tracks(&app, 2);
    app.set_split_source(false);
    assert!(app.result().is_none());
    assert_eq!(app.notice, Notice::SplitSourceChanged);
    assert!(app.fold.is_some());
    assert_eq!(app.input_source().unwrap().tracks.len(), 6);
    run_job(&mut app);
    assert_split_tracks(&app, 6);
    app.set_split_source(true);
    assert!(app.result().is_none());
    assert_eq!(app.input_source().unwrap().tracks.len(), 2);
}

#[test]
fn edited_fold_settings_clear_old_outputs_and_new_fold_replaces_split_input() {
    let mut app = app();
    run_job(&mut app);
    app.set_mode(Mode::Split);
    run_job(&mut app);
    app.set_mode(Mode::Fold);
    app.invalidate_fold();
    assert!(app.result().is_none());
    assert!(app.fold.is_none());
    assert!(app.split.is_none());
    assert!(!app.split_uses_folded);
    assert_eq!(app.notice, Notice::FoldOptionsChanged);
    assert_eq!(app.source.as_ref().unwrap().score.tracks.len(), 6);
    run_job_with(&mut app, 3);
    assert_eq!(app.result().unwrap().score.tracks.len(), 3);
    app.set_mode(Mode::Split);
    assert_eq!(app.input_source().unwrap().tracks.len(), 3);
    run_job(&mut app);
    assert_split_tracks(&app, 3);
}

#[test]
fn opening_another_score_clears_cached_results_and_split_input() {
    let mut app = app();
    run_job(&mut app);
    app.prepare_split();
    run_job(&mut app);
    app.screen.follow_playhead = false;
    app.accept_source(source_with_six_tracks("six-track-source.mmi"));
    assert!(app.result().is_none());
    assert!(app.fold.is_none());
    assert!(app.split.is_none());
    assert!(!app.split_uses_folded);
    assert!(app.screen.follow_playhead);
    assert_eq!(app.input_source().unwrap().tracks.len(), 6);
}

#[test]
fn source_preview_metadata_is_not_presented_as_the_two_track_output() {
    let mut app = app();
    run_job(&mut app);
    assert_eq!(app.displayed_result().unwrap().score.tracks.len(), 2);
    app.screen.show_original = true;
    assert!(app.displayed_result().is_none());
    assert_eq!(app.input_source().unwrap().tracks.len(), 6);
    assert_eq!(app.heard_score().unwrap().tracks.len(), 6);
    app.screen.tab = Tab::Mml;
    assert_eq!(app.displayed_result().unwrap().score.tracks.len(), 2);
}

#[test]
fn selecting_piano_scroll_changes_the_file_details_without_seeking_playback() {
    let mut app = app();
    run_job(&mut app);
    app.prepare_split();
    run_job(&mut app);
    assert!(app.sync_playback());
    let first_parts = app.result().unwrap().artifacts[0].game_parts.clone();

    app.select_split(1);

    let result = app.result().unwrap();
    let selected_file = &result.artifacts[app.screen.artifact];
    assert!(selected_file.name.ends_with("_02.mmi"));
    assert_ne!(selected_file.game_parts, first_parts);
    assert_eq!(app.screen.scroll, 1);
    let chunk = &result.split.as_ref().unwrap().chunks[1];
    assert_eq!(
        app.screen.start_tick,
        chunk
            .start
            .min((result.score.total_ticks() - app.screen.beats * 96).max(0))
    );
    assert!(!app.screen.follow_playhead);
    assert!(!app.sync_playback());
    let before = app.screen;
    app.select_split(10_000);
    app.select_artifact(10_000);
    assert_eq!(app.screen.scroll, before.scroll);
    assert_eq!(app.screen.artifact, before.artifact);
}

#[test]
fn output_scroll_selection_moves_the_piano() {
    let mut app = app();
    run_job(&mut app);
    app.prepare_split();
    run_job(&mut app);
    let artifacts = &app.result().unwrap().artifacts;
    let second_score = artifacts
        .iter()
        .position(|a| a.name.ends_with("_02.mmi"))
        .unwrap();

    app.select_artifact(second_score);
    assert_eq!(app.screen.scroll, 1);
    assert_eq!(app.screen.artifact, second_score);

    app.select_split(0);
    assert_eq!(app.screen.scroll, 0);
    assert!(app.result().unwrap().artifacts[app.screen.artifact]
        .name
        .ends_with("_01.mmi"));
}

#[test]
fn switching_between_original_and_result_resets_sound_selections_for_that_score() {
    let mut app = app();
    assert!(app.sync_playback());
    let mut sound = Audibility::all(app.heard_score().unwrap());
    assert!(sound.set_track_enabled(5, false));
    assert!(sound.set_part_enabled(0, 2, false));
    assert!(sound.set_part_instrument(0, 2, Instrument::Violin));
    assert_eq!(sound.part_instrument(0, 2), Instrument::Violin);
    run_job(&mut app);
    assert!(app.sync_playback());
    sound = Audibility::all(app.heard_score().unwrap());
    for ti in 0..2 {
        assert!(sound.track_enabled(ti));
        for pi in 0..3 {
            assert!(sound.part_enabled(ti, pi));
            assert_eq!(sound.part_instrument(ti, pi), Instrument::Piano);
        }
    }
    sound.set_track_enabled(0, false);
    sound.set_part_instrument(0, 0, Instrument::Flute);
    app.screen.show_original = true;
    assert!(app.sync_playback());
    sound = Audibility::all(app.heard_score().unwrap());
    for ti in 0..6 {
        assert!(sound.track_enabled(ti));
        for pi in 0..3 {
            assert!(sound.part_enabled(ti, pi));
            assert_eq!(sound.part_instrument(ti, pi), Instrument::Piano);
        }
    }
    sound.set_part_enabled(1, 1, false);
    sound.set_part_instrument(1, 1, Instrument::Trumpet);
    app.screen.show_original = false;
    assert!(app.sync_playback());
    sound = Audibility::all(app.heard_score().unwrap());
    assert!(sound.track_enabled(0));
    assert!(sound.part_enabled(1, 1));
    assert_eq!(sound.part_instrument(1, 1), Instrument::Piano);
}

#[test]
fn nothing_is_turned_to_while_work_is_under_way() {
    let mut app = app();
    run_job(&mut app);
    app.busy = true;
    app.set_mode(Mode::Split);
    app.prepare_split();
    app.set_split_source(false);
    assert!(app.mode == Mode::Fold && app.split_uses_folded);
    app.settle(Err("끊김".to_owned()));
    assert_eq!(app.notice, Notice::Failed);
    assert_eq!(app.error.as_deref(), Some("끊김"));
    assert!(app.fold.is_some() && !app.busy);
    app.busy = true;
    app.settle(Ok(JobDone::Saved("어딘가".to_owned())));
    assert_eq!(app.notice, Notice::Saved);
    assert_eq!(app.saved.as_deref(), Some("어딘가"));
    app.set_mode(Mode::Split);
    assert!(app.saved.is_none());
}

#[test]
fn a_result_that_comes_late_is_kept_for_its_own_mode() {
    let mut app = app();
    app.set_mode(Mode::Split);
    let work = folded(&app.source.as_ref().unwrap().score, 2, "곡");
    app.settle(Ok(JobDone::Worked(work)));
    assert!(app.result().is_none() && app.fold.is_some() && app.split_uses_folded);
    assert_eq!(app.stem(), "six-track-source");
    app.set_mode(Mode::Fold);
    assert_eq!(app.screen.notes, app.result().unwrap().score.all_notes().len());
    assert_eq!(Workspace::new().stem(), "score");
}
