//! Pieces of work and the files that come out of them.
use mmlfold::files::{export_folder, WriteCheck, WriteFault};
use mmlfold::jobs::{execute, loaded, reply_result, JobRequest, JobResponse, WorkerReply};
use mmlfold::mmi::{parse_mmi, serialize_mmi};
use mmlfold::polyphony::{max_polyphony, polyphony_histogram};
use mmlfold::split::SplitOptions;
use mmlfold::verify::{preserved, verify_scores};
use mmlfold::workflow::{arrange, compare, game_export, game_text, scrolls, source_export, WorkError, WorkKind};
use mmlfold::Score;

const TEXT: &str =
    "[mml-score]\nmml-track=MML@t120l4cdef,r2g2,;\nname=첫째\nvisible=true\n[time-signature]\n0=4/4\n";

fn score() -> Score {
    parse_mmi(TEXT).unwrap()
}

#[test]
fn exported_parts_make_up_the_text_of_the_track() {
    let export = game_export(&score()).unwrap();
    assert_eq!(export.parts, vec![vec!["t120l4cdef", "r2g2", ""]]);
    assert_eq!(export.tempo_note_splits, 0);
    assert_eq!(format!("MML@{};", export.parts[0].join(",")), score().tracks[0].mml);
    let mut odd = score();
    odd.tracks[0].mml = "MML@cdef".to_owned();
    assert!(matches!(game_export(&odd), Err(WorkError::NoPayload { track: 1 })));
}

#[test]
fn parts_are_connected_by_commas() {
    let texts = |list: &[&str]| list.iter().map(|s| s.to_string()).collect::<Vec<_>>();
    assert_eq!(game_text(&[texts(&["c", "가나"]), texts(&[""]), texts(&["d"])]), "c,가나,,d");
    assert_eq!(game_text(&[texts(&["o4c"])]), "o4c");
    assert_eq!(game_text(&[texts(&["", ""])]), ",");
    assert_eq!(game_text(&[Vec::new(), texts(&["a"]), Vec::new()]), "a");
    assert_eq!(game_text(&[]), "");
}

#[test]
fn a_score_is_saved_as_it_is() {
    let work = source_export(&score(), "곡").unwrap();
    assert_eq!(work.kind, WorkKind::Import);
    assert_eq!(work.artifacts.len(), 1);
    assert_eq!(work.artifacts[0].name, "곡.mmi");
    assert_eq!(work.artifacts[0].text, serialize_mmi(&score()));
    assert!(work.report.is_empty() && work.split.is_none());
}

#[test]
fn an_arrangement_is_saved_whole_and_track_by_track() {
    let whole = arrange(score(), "보고".to_owned(), "곡", false).unwrap();
    assert_eq!(whole.kind, WorkKind::Fold);
    assert_eq!(whole.artifacts.len(), 1);
    assert_eq!(whole.artifacts[0].name, "곡_folded.mmi");
    assert_eq!(whole.report, "보고");
    let each = arrange(score(), String::new(), "곡", true).unwrap();
    assert_eq!(each.artifacts[1].name, "곡_folded_t1.mmi");
    assert!(each.artifacts[1].text.contains("name=Track1"));
}

#[test]
fn scrolls_keep_every_part_within_the_limit() {
    let options = SplitOptions {
        limit: 20,
        min_gap: 24,
        big_gap: 96,
    };
    let work = scrolls(&score(), &options, "곡").unwrap();
    assert_eq!(work.kind, WorkKind::Split);
    let preview = work.split.unwrap();
    assert_eq!(preview.limit, 20);
    assert_eq!(preview.chunks.len(), work.artifacts.len());
    assert_eq!(work.artifacts[0].name, "곡_01.mmi");
    for chunk in &preview.chunks {
        assert!(chunk.part_widths.iter().flatten().all(|&width| width <= 20));
    }
    let refused = scrolls(
        &score(),
        &SplitOptions {
            limit: 0,
            min_gap: 24,
            big_gap: 96,
        },
        "곡",
    );
    assert!(matches!(refused, Err(WorkError::Split { .. })));
}

#[test]
fn a_comparison_reports_what_was_kept() {
    let source = score();
    let output = score();
    assert_eq!(preserved(&source, &output), (5, 5));
    let report = verify_scores(&source, &output, "100.00");
    assert_eq!(
        report,
        "out tracks: 1  notes: 5\nout polyphony (voices: ticks): {1: 192, 2: 192}\nmax polyphony: 2\ntrack1 tempo events exact: true (1)\ninput notes 5, output notes 5, exactly-preserved 5 (100.00% of output)\nconstructs absent from the source dialect: none\n"
    );
    let mut other = parse_mmi("[mml-score]\nmml-track=MML@t120l4cd+ef,r2g2;\nname=x\nvisible=true\n").unwrap();
    other.tracks[0].tempos.clear();
    let report = verify_scores(&source, &other, "80.00");
    assert!(report.contains("track1 tempo events exact: false (0)"));
    assert!(report.contains("exactly-preserved 4 (80.00% of output)"));
    assert!(report.contains("output notes not present verbatim in input: 1\n    (96, 192, 63, 8) x1\n"));
    assert!(report.contains("constructs absent from the source dialect: {\"d+\": 1}"));
    let work = compare(&source, other, "곡", "80.00");
    assert_eq!(work.kind, WorkKind::Verify);
    assert_eq!(work.artifacts[0].name, "곡_verification.txt");
    assert_eq!(work.artifacts[0].text, work.report);
}

#[test]
fn notes_that_sound_together_are_counted() {
    let notes = score().all_notes();
    assert_eq!(polyphony_histogram(&notes), vec![0, 192, 192]);
    assert_eq!(max_polyphony(&notes), 2);
    assert_eq!(max_polyphony(&[]), 0);
    assert!(matches!(
        loaded("곡.mmi".to_owned(), score()),
        JobResponse::Loaded { notes: 5, polyphony: 2, .. }
    ));
}

#[test]
fn no_file_is_written_twice_or_over_the_input() {
    let mut check = WriteCheck::new(false, vec![7]);
    assert_eq!(check.admit_file(true, 1, false), Err(WriteFault::Folder));
    assert_eq!(check.admit_file(false, 7, false), Err(WriteFault::Protected));
    assert_eq!(check.admit_file(false, 1, false), Ok(()));
    assert_eq!(check.admit_file(false, 1, false), Err(WriteFault::Twice));
    assert_eq!(check.admit_file(false, 2, true), Err(WriteFault::Exists));
    assert_eq!(WriteCheck::new(true, vec![]).admit_file(false, 2, true), Ok(()));
    assert_eq!(export_folder("곡", 1).unwrap(), "곡_export");
    assert_eq!(export_folder("곡", 12).unwrap(), "곡_export_12");
    assert!(export_folder("곡", 10001).is_none());
}

#[test]
fn replies_of_workers_are_read() {
    let reply = WorkerReply { ok: true, result: Some(3), error: None };
    assert_eq!(reply_result(reply), Ok(3));
    let reply: WorkerReply<i32> = WorkerReply { ok: true, result: None, error: None };
    assert_eq!(reply_result(reply), Err("작업 결과가 비어 있습니다".to_owned()));
    let reply: WorkerReply<i32> = WorkerReply { ok: false, result: None, error: Some("x".to_owned()) };
    assert_eq!(reply_result(reply), Err("x".to_owned()));
}

#[test]
fn work_is_done_as_it_is_asked_for() {
    let kind = |request: JobRequest| match execute(request) {
        Ok(JobResponse::Worked(work)) => work.kind,
        _ => panic!("the work was not done"),
    };
    let stem = || "곡".to_owned();
    let arranged = JobRequest::Arrange {
        score: score(),
        report: String::new(),
        stem: stem(),
        track_files: false,
    };
    assert_eq!(kind(arranged), WorkKind::Fold);
    let cut = JobRequest::Split {
        score: score(),
        options: SplitOptions::default(),
        stem: stem(),
    };
    assert_eq!(kind(cut), WorkKind::Split);
    assert_eq!(kind(JobRequest::Export { score: score(), stem: stem() }), WorkKind::Import);
    let mut odd = score();
    odd.tracks[0].mml = "MML@cdef".to_owned();
    assert!(matches!(
        execute(JobRequest::Export { score: odd, stem: stem() }),
        Err(WorkError::NoPayload { track: 1 })
    ));
}
