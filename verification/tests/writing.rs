//! Parts are read, written and cut into scrolls.
use mmlfold::cuts::gaps;
use mmlfold::game_mml::{emit_track, GameError};
use mmlfold::lengths::{split_ticks, LengthTable};
use mmlfold::mmi::{parse_mmi, serialize_mmi, MmiError};
use mmlfold::mml::{parse_part, MmlError};
use mmlfold::scroll::{SplitError, SplitOptions};
use mmlfold::split::{split_score, split_score_python};
use mmlfold::writer::{emit_part, EmitError};
use mmlfold::{Note, Score};

fn note(on: i64, off: i64, pitch: i32) -> Note {
    Note {
        on,
        off,
        pitch,
        vel: 8,
        src: (0, 0),
    }
}

#[test]
fn a_part_is_read_note_by_note() {
    let (notes, tempos, time) = parse_part("t90c8.d&dr4>e<v12f+n48;g", (2, 1)).unwrap();
    let read: Vec<_> = notes.iter().map(|n| (n.on, n.off, n.pitch, n.vel)).collect();
    assert_eq!(
        read,
        vec![
            (0, 72, 60, 8),
            (72, 264, 62, 8),
            (360, 456, 76, 8),
            (456, 552, 66, 12),
            (552, 648, 60, 12),
        ]
    );
    assert!(notes.iter().all(|n| n.src == (2, 1)));
    assert_eq!(tempos, vec![(0, 90)]);
    assert_eq!(time, 648);
    assert_eq!(parse_part("c0", (0, 0)).unwrap().2, 384);
    assert_eq!(parse_part("l16.c", (0, 0)).unwrap().2, 36);
}

#[test]
fn what_cannot_be_read_is_named() {
    let fault = |text: &str| parse_part(text, (0, 0)).unwrap_err();
    assert!(matches!(fault("l999c"), MmlError::ZeroDuration { length: 999 }));
    assert!(matches!(fault("t"), MmlError::MissingNumber { command: b't', byte: 1 }));
    assert!(matches!(fault("ct0"), MmlError::TempoNotPositive { tick: 96 }));
    assert!(matches!(fault("t99999999999"), MmlError::TempoTooLarge));
    assert!(matches!(fault("v99999999999"), MmlError::VolumeTooLarge));
    assert!(matches!(fault("c99999999999999999999"), MmlError::NumberTooLarge { .. }));
    assert!(matches!(fault("o9223372036854775807>"), MmlError::OctaveOverflow));
    assert!(matches!(fault("n9223372036854775807"), MmlError::AbsolutePitchOverflow));
    assert!(matches!(fault("o9223372036854775807c"), MmlError::PitchOverflow));
    assert!(matches!(fault("n4294967296"), MmlError::PitchTooLarge));
}

#[test]
fn a_part_is_written_shortly_and_reads_back() {
    let write = |notes: &[Note], tempos: &[(i64, i32)]| emit_part(notes, tempos, 384).unwrap();
    assert_eq!(write(&[note(0, 96, 60)], &[]), "c");
    assert_eq!(write(&[note(96, 192, 62)], &[(0, 120)]), "t120rd");
    let eighths = [note(0, 48, 60), note(48, 96, 60), note(96, 144, 60)];
    assert_eq!(write(&eighths, &[]), "l8ccc");
    assert_eq!(write(&[note(0, 192, 60)], &[(96, 150)]), "ct150&c");
    assert_eq!(write(&[note(0, 96, 96)], &[]), "o7c");
    let mixed = [note(6, 78, 61), note(96, 200, 45), note(200, 384, 107)];
    let text = write(&mixed, &[(0, 120), (96, 90), (296, 61)]);
    let (notes, tempos, time) = parse_part(&text, (0, 0)).unwrap();
    assert_eq!(notes, mixed.to_vec());
    assert_eq!(tempos, vec![(0, 120), (96, 90), (296, 61)]);
    assert_eq!(time, 384);
}

#[test]
fn what_cannot_be_written_is_named() {
    let fault = |notes: &[Note], tempos: &[(i64, i32)], total: i64| {
        emit_part(notes, tempos, total).unwrap_err()
    };
    assert!(matches!(fault(&[], &[], -1), EmitError::NegativeTotal { total: -1 }));
    assert!(matches!(
        fault(&[note(9, 9, 60)], &[], 9),
        EmitError::InvalidInterval { on: 9, off: 9 }
    ));
    assert!(matches!(
        fault(&[note(0, 96, 60), note(48, 96, 62)], &[], 96),
        EmitError::Overlap { tick: 48 }
    ));
    let mut soft = note(0, 96, 60);
    soft.vel = -1;
    assert!(matches!(fault(&[soft], &[], 96), EmitError::NegativeVolume { tick: 0 }));
    assert!(matches!(fault(&[note(0, 3, 60)], &[], 3), EmitError::Duration { ticks: 3 }));
    assert!(matches!(
        fault(&[], &[(0, 0)], 0),
        EmitError::InvalidTempo { value: 0, tick: 0 }
    ));
    assert!(matches!(
        fault(&[note(3, 99, 60)], &[], 99),
        EmitError::Rest { tick: 0, ticks: 3 }
    ));
    assert!(matches!(
        fault(&[note(0, 96, 200)], &[], 96),
        EmitError::Pitch { pitch: 200, tick: 0 }
    ));
    assert!(matches!(
        fault(&[note(0, 96, 60)], &[(3, 150)], 96),
        EmitError::Segment { pitch: 60, tick: 0, ticks: 3 }
    ));
}

#[test]
fn lengths_are_made_of_those_that_can_be_written() {
    assert_eq!(split_ticks(96).unwrap(), vec![96]);
    assert_eq!(split_ticks(0).unwrap(), Vec::<i64>::new());
    let table = LengthTable::new();
    for ticks in [6, 7, 100, 385, 1000, 100_000] {
        let pieces = split_ticks(ticks).unwrap();
        assert_eq!(pieces.iter().sum::<i64>(), ticks);
        assert_eq!(table.split(ticks).unwrap(), pieces);
    }
    assert!(split_ticks(3).is_err());
    assert!(split_ticks(-1).is_err());
}

#[test]
fn tempos_are_given_to_parts_that_can_carry_them() {
    let melody = vec![note(0, 192, 60)];
    let track = emit_track(&[melody.clone()], &[(0, 120), (96, 150)], 192).unwrap();
    assert_eq!(track.tempo_note_splits, 1);
    let (notes, tempos, _) = parse_part(&track.parts[0], (0, 0)).unwrap();
    assert_eq!(tempos, vec![(0, 120), (96, 150)]);
    assert_eq!((notes[0].on, notes.last().unwrap().off), (0, 192));
    let beside = emit_track(
        &[melody.clone(), vec![note(0, 96, 48), note(96, 192, 50)]],
        &[(0, 120), (96, 150)],
        192,
    )
    .unwrap();
    assert_eq!(beside.tempo_note_splits, 0);
    assert_eq!(parse_part(&beside.parts[0], (0, 0)).unwrap().0, melody);

    let fault = |parts: &[Vec<Note>], tempos: &[(i64, i32)], total: i64| {
        emit_track(parts, tempos, total).unwrap_err()
    };
    assert!(matches!(fault(&[], &[], -1), GameError::NegativeTotal { total: -1 }));
    let five = vec![Vec::new(); 5];
    assert!(matches!(fault(&five, &[], 0), GameError::TooManyParts));
    assert!(matches!(
        fault(&[melody.clone()], &[(0, 0)], 192),
        GameError::InvalidTempo { value: 0, tick: 0 }
    ));
    assert!(matches!(
        fault(&[vec![note(0, 3, 60)]], &[], 3),
        GameError::Part { cause: EmitError::Duration { ticks: 3 }, .. }
    ));
    assert!(matches!(
        fault(&[melody], &[(3, 150)], 192),
        GameError::Unplaceable { value: 150, tick: 3 }
    ));
}

#[test]
fn a_score_file_reads_back_as_it_was_written() {
    let text = "[mml-score]\r\nversion=1\ntempo=0T120,192T80\nmml-track=MML@c1,e1;\nname=하나\nvisible=true\nmml-track=MML@g1;\nname=둘\nvisible=false\n[time-signature]\n0=3/4\n";
    let score = parse_mmi(text).unwrap();
    assert_eq!(score.tracks.len(), 2);
    assert_eq!(score.tempos(), vec![(0, 120), (192, 80)]);
    let again = parse_mmi(&serialize_mmi(&score)).unwrap();
    assert_eq!(serialize_mmi(&again), serialize_mmi(&score));
    assert_eq!(again.all_notes(), score.all_notes());
    assert_eq!(again.tail, score.tail);
    assert!(matches!(
        parse_mmi("mml-track=MML@c;\nvisible=true\n[x]\nmml-track=MML@d;"),
        Err(MmiError::TrackInTail)
    ));
    match parse_mmi("mml-track=MML@c;\n아무 말") {
        Err(MmiError::Metadata { line }) => assert_eq!(line, "아무 말"),
        _ => panic!("a line without a value was read"),
    }
    assert!(matches!(parse_mmi("mml-track=MML@t0c;"), Err(MmiError::Track { .. })));
}

fn long_score() -> Score {
    let text = format!(
        "[mml-score]\nmml-track=MML@t120l8{},o3l4{},;\nname=x\nvisible=true\n",
        "cdefr4".repeat(20),
        "cgr2".repeat(15),
    );
    parse_mmi(&text).unwrap()
}

#[test]
fn scrolls_keep_every_note_and_stay_within_the_limit() {
    let score = long_score();
    let options = SplitOptions {
        limit: 60,
        ..SplitOptions::default()
    };
    let total = score.total_ticks();
    for (result, end) in [
        (split_score(&score, &options).unwrap(), total),
        (split_score_python(&score, &options).unwrap(), total + 1),
    ] {
        assert!(result.chunks.len() > 1);
        assert_eq!(result.chunks[0].start, 0);
        assert_eq!(result.chunks.last().unwrap().end, end);
        let mut found = 0;
        for (i, chunk) in result.chunks.iter().enumerate() {
            if i > 0 {
                assert_eq!(chunk.start, result.chunks[i - 1].end);
            }
            for parts in &chunk.game_parts {
                assert!(parts.iter().all(|part| part.len() <= 60));
            }
            found += chunk.score.all_notes().len();
        }
        assert_eq!(found, score.all_notes().len());
    }
    assert_eq!(split_score(&score, &SplitOptions::default()).unwrap().chunks.len(), 1);
}

#[test]
fn what_cannot_be_cut_is_named() {
    let score = long_score();
    let base = SplitOptions::default();
    let fault = |options: &SplitOptions| split_score(&score, options).unwrap_err();
    assert_eq!(fault(&SplitOptions { limit: 0, ..base }), SplitError::NoLimit);
    assert_eq!(fault(&SplitOptions { min_gap: -1, ..base }), SplitError::NegativeGap);
    assert!(matches!(
        fault(&SplitOptions { limit: 2, ..base }),
        SplitError::EventTooWide { .. } | SplitError::NothingFits { .. } | SplitError::EventOverLimit
    ));
    for result in [
        split_score(&Score::default(), &base).unwrap(),
        split_score_python(&Score::default(), &base).unwrap(),
    ] {
        assert!(result.chunks.is_empty());
        assert_eq!(
            result.report,
            "0 scrolls, limit 2400 chars/part (score contains no notes)"
        );
    }
    let mut odd = parse_mmi("mml-track=MML@c;").unwrap();
    odd.tracks[0].parts[0] = vec![note(0, 0, 60)];
    assert_eq!(split_score(&odd, &base).unwrap_err(), SplitError::EmptyScore);
    odd.tracks[0].parts[0] = vec![note(9, 3, 60), note(9, 15, 60)];
    assert_eq!(split_score(&odd, &base).unwrap_err(), SplitError::InvalidNote);
    odd.tracks[0].parts[0] = vec![note(0, i64::MAX - 3, 60)];
    assert_eq!(split_score(&odd, &base).unwrap_err(), SplitError::TooLong);
    odd.tracks[0].parts[0] = vec![note(0, 96, 60)];
    odd.tracks[0].tempos = vec![(-5, 90)];
    assert_eq!(split_score(&odd, &base).unwrap_err(), SplitError::NegativeTempo);
    let notes = [note(0, 96, 60), note(144, 240, 60), note(150, 200, 64), note(300, 310, 60)];
    assert_eq!(gaps(&notes, 50), vec![(240, 60)]);
    assert_eq!(gaps(&notes, 24), vec![(96, 48), (240, 60)]);
}
