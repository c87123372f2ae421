//! What is heard of a score.
use mmlfold::audibility::Audibility;
use mmlfold::instruments::{missing_instrument, ready, Instrument};
use mmlfold::mmi::parse_mmi;
use mmlfold::piano::{check_piano, choose_recording, Layer, Piano, PianoFault, Reach, Recording};
use mmlfold::playback::{after_frame, request, shown, step, Action, PlaybackState, Standing};
use mmlfold::timeline::{Timeline, TimelineFault};
use mmlfold::{Note, Score, Track};

fn score() -> Score {
    parse_mmi("tempo=0T120,96T90\nmml-track=MML@c4d4,v0e2;\nvisible=true\nmml-track=MML@v99g4;\nvisible=true\n")
        .unwrap()
}

#[test]
fn instruments_are_told_apart_by_their_programs() {
    let all = Instrument::all();
    assert_eq!(all.len(), 17);
    for (i, a) in all.iter().enumerate() {
        for b in &all[i + 1..] {
            assert_ne!(a.program(), b.program());
            assert_ne!(a.name(), b.name());
        }
    }
    assert_eq!(Instrument::default(), Instrument::Piano);
    assert_eq!(Instrument::Flute.program(), 73);
    assert_eq!(Instrument::Violin.name(), "바이올린");
    assert_eq!(Instrument::Xylophone.release_seconds(), 13);
    assert_eq!(Instrument::Piano.release_seconds(), 4);
    assert!(ready(true, true) && !ready(true, false) && !ready(false, true));
}

#[test]
fn the_first_instrument_without_a_program_is_missed() {
    let mut presets: Vec<(i32, i32)> = Instrument::all().iter().map(|i| (0, i.program())).collect();
    presets.reverse();
    assert_eq!(missing_instrument(&presets), None);
    presets.retain(|&(_, program)| program != 73 && program != 24);
    presets.push((1, 24));
    assert_eq!(missing_instrument(&presets), Some(Instrument::Guitar));
    assert_eq!(missing_instrument(&Vec::new()), Some(Instrument::Piano));
    assert_eq!(Instrument::Guitar.missing(), "기타 가상 악기를 찾을 수 없습니다.");
}

fn reach(lowest: i32, highest: i32, softest: i32, loudest: i32) -> Reach {
    Reach { lowest, highest, softest, loudest }
}

/// A piano of two layers, the louder of which has two recordings.
fn piano() -> Piano {
    let whole = |start, end, sample| Recording { reach: reach(0, 127, 0, 127), start, end, sample };
    let mut high = whole(4, 8, 1);
    high.reach.lowest = 61;
    Piano {
        layers: Some(vec![
            Layer { reach: reach(0, 127, 0, 80), instrument: 1 },
            Layer { reach: reach(0, 127, 0, 127), instrument: 0 },
        ]),
        instruments: vec![vec![high, whole(0, 4, 0)], vec![whole(8, 12, 2)]],
        values: 12,
        samples: 3,
    }
}

#[test]
fn every_key_of_a_piano_has_a_recording() {
    let whole = piano();
    assert_eq!(check_piano(&whole), Ok(()));
    assert_eq!(choose_recording(&whole, 60, 80), Some((0, 0)));
    assert_eq!(choose_recording(&whole, 60, 81), Some((1, 1)));
    assert_eq!(choose_recording(&whole, 127, 127), Some((1, 0)));
    assert_eq!(choose_recording(&whole, 0, 127), Some((1, 1)));
    assert_eq!(choose_recording(&whole, 128, 127), None);
    assert_eq!(choose_recording(&whole, -1, 127), None);
    assert_eq!(choose_recording(&whole, 60, 0), None);
}

#[test]
fn what_a_piano_lacks_is_named() {
    let mut none = piano();
    none.layers = None;
    assert_eq!(check_piano(&none), Err(PianoFault::NoPreset));
    let mut soft = piano();
    soft.layers = Some(vec![Layer { reach: reach(0, 127, 0, 126), instrument: 0 }]);
    assert_eq!(check_piano(&soft), Err(PianoFault::NoKey));
    let mut astray = piano();
    astray.instruments.truncate(1);
    assert_eq!(check_piano(&astray), Err(PianoFault::BadInstrument));
    let mut narrow = piano();
    narrow.instruments[1][0].reach.highest = 108;
    assert_eq!(check_piano(&narrow), Err(PianoFault::NoSample));
    for broken in 0..4 {
        let mut piano = piano();
        match broken {
            0 => piano.values = 11,
            1 => piano.samples = 2,
            2 => piano.instruments[1][0].start = -1,
            _ => piano.instruments[1][0].end = 8,
        }
        assert_eq!(check_piano(&piano), Err(PianoFault::BadRange));
    }
    assert_eq!(PianoFault::NoKey.message(), "피아노의 건반 정보가 없습니다.");
}

#[test]
fn tracks_and_parts_are_switched_each_for_itself() {
    let mut sound = Audibility::all(&score());
    assert!(sound.enabled(0, 1));
    assert!(sound.set_track_enabled(0, false));
    assert!(!sound.enabled(0, 1) && sound.part_enabled(0, 1) && sound.enabled(1, 0));
    assert!(sound.set_part_enabled(0, 1, false));
    assert!(sound.set_track_enabled(0, true));
    assert!(sound.enabled(0, 0) && !sound.enabled(0, 1));
    assert!(sound.set_part_instrument(1, 0, Instrument::Harp));
    assert_eq!(sound.part_instrument(1, 0), Instrument::Harp);
    assert_eq!(sound.part_instrument(0, 0), Instrument::Piano);
    assert!(!sound.set_track_enabled(9, true));
    assert!(!sound.set_part_enabled(0, 9, true));
    assert!(!sound.set_part_instrument(9, 0, Instrument::Tuba));
    assert!(!sound.track_enabled(9) && !sound.part_enabled(0, 9));
}

#[test]
fn a_pause_keeps_the_place_and_a_stop_goes_back() {
    let paused = step(PlaybackState::Playing, Action::Pause, false);
    assert_eq!(paused.state, PlaybackState::Paused);
    assert!(!paused.rewind && paused.sync);
    let stopped = step(PlaybackState::Playing, Action::Stop, false);
    assert_eq!(stopped.state, PlaybackState::Stopped);
    assert!(stopped.rewind);
    assert!(step(PlaybackState::Stopped, Action::Play, true).rewind);
    assert!(!step(PlaybackState::Paused, Action::Play, false).rewind);
    assert_eq!(step(PlaybackState::Paused, Action::Seek, false).state, PlaybackState::Paused);
    assert_eq!(after_frame(PlaybackState::Playing, true), PlaybackState::Stopped);
    assert_eq!(after_frame(PlaybackState::Paused, true), PlaybackState::Paused);
}

#[test]
fn an_old_report_of_the_device_does_not_undo_a_request() {
    let published = Standing { revision: 4, state: PlaybackState::Playing };
    let requested = request(published, PlaybackState::Paused);
    assert_eq!(requested.revision, 5);
    assert_eq!(shown(published, requested, false), (false, PlaybackState::Paused));
    let later = Standing { revision: 5, state: PlaybackState::Stopped };
    assert_eq!(shown(later, requested, false), (true, PlaybackState::Stopped));
    assert_eq!(shown(published, requested, true).1, PlaybackState::Stopped);
    let last = Standing { revision: u64::MAX, state: PlaybackState::Stopped };
    assert_eq!(request(last, PlaybackState::Playing).revision, 0);
}

#[test]
fn a_timeline_holds_the_notes_that_last_and_the_tempos_that_count() {
    let timeline = Timeline::from_score(&score()).unwrap();
    assert_eq!(timeline.total_ticks, 192);
    assert_eq!(timeline.tempos, vec![(0, 120), (96, 90)]);
    let heard: Vec<_> = timeline
        .notes
        .iter()
        .map(|n| (n.track, n.part, n.on, n.off, n.pitch, n.level))
        .collect();
    assert_eq!(
        heard,
        vec![
            (0, 0, 0, 96, 60, 8),
            (0, 0, 96, 192, 62, 8),
            (0, 1, 0, 192, 64, 0),
            (1, 0, 0, 96, 67, 15),
        ]
    );
    let late = parse_mmi("tempo=48T90,960T60\nmml-track=MML@c4;\n").unwrap();
    assert_eq!(Timeline::from_score(&late).unwrap().tempos, vec![(0, 120), (48, 90)]);
}

fn single(notes: Vec<Note>) -> Score {
    Score {
        tracks: vec![Track {
            parts: vec![notes],
            ..Track::default()
        }],
        ..Score::default()
    }
}

#[test]
fn what_cannot_be_played_is_named() {
    let note = |on, off| Note { on, off, pitch: 60, vel: 8, src: (0, 0) };
    assert_eq!(
        Timeline::from_score(&single(vec![note(-9, -3)])).unwrap_err(),
        TimelineFault::Duration
    );
    assert_eq!(
        Timeline::from_score(&single(vec![note(0, 6), note(4, 2)])).unwrap_err(),
        TimelineFault::Interval { on: 4, off: 2 }
    );
    let mut odd = single(vec![note(0, 6)]);
    odd.tracks[0].tempos = vec![(0, 0)];
    assert_eq!(
        Timeline::from_score(&odd).unwrap_err(),
        TimelineFault::Tempo { tick: 0, bpm: 0 }
    );
    let quiet = Timeline::from_score(&single(vec![note(3, 3)])).unwrap();
    assert!(quiet.notes.is_empty());
    assert_eq!(quiet.total_ticks, 3);
}
