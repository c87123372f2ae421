//! What holds of the library as a whole, on concrete scores.
use mmlfold::encode::Ensemble;
use mmlfold::fold::{analyze, Layout, VolumeRange};
use mmlfold::folding::{check_options, count_shortened, next_try, report_try, OptionFault};
use mmlfold::game_mml::emit_track;
use mmlfold::midi::clean_name;
use mmlfold::mmi::{parse_mmi, serialize_mmi, track_from_mml};
use mmlfold::mml::parse_part;
use mmlfold::polyphony::max_polyphony;
use mmlfold::prepare::prepare_score;
use mmlfold::reduce::reduce;
use mmlfold::salience::features;
use mmlfold::voices::monophonic_lanes;
use mmlfold::writer::emit_part;
use mmlfold::{Meta, Note, Score, Tick, Track};

fn note(on: Tick, off: Tick, pitch: i32) -> Note {
    Note {
        on,
        off,
        pitch,
        vel: 8,
        src: (0, 0),
    }
}

#[test]
fn capitals_and_what_follows_a_semicolon_do_not_count() {
    for text in ["t90o5c8.d&dr4>e<v12f+n48", "MML@l16.cde", "가c#나"] {
        let plain = parse_part(text, (1, 2)).unwrap();
        assert_eq!(parse_part(&text.to_ascii_uppercase(), (1, 2)).unwrap(), plain);
        assert_eq!(parse_part(&format!("{text};l0t0뒤"), (1, 2)).unwrap(), plain);
    }
    for text in ["t", "ct0", "l999c"] {
        let fault = parse_part(text, (0, 0)).unwrap_err();
        assert_eq!(parse_part(&text.to_ascii_uppercase(), (0, 0)).unwrap_err(), fault);
        assert_eq!(parse_part(&format!("{text};c"), (0, 0)).unwrap_err(), fault);
    }
}

#[test]
fn neither_order_nor_end_changes_the_text_of_a_part() {
    let notes = [note(0, 48, 60), note(48, 96, 62), note(192, 288, 64)];
    let tempos = [(0, 120), (48, 90), (48, 100)];
    let text = emit_part(&notes, &tempos, 288).unwrap();
    let mixed = [notes[2], notes[0], notes[1]];
    let turned = [tempos[2], tempos[0], tempos[1]];
    assert_eq!(emit_part(&mixed, &turned, 0).unwrap(), text);
    assert_eq!(emit_part(&mixed, &turned, 9999).unwrap(), text);
    let double = [note(0, 48, 60), note(0, 96, 62)];
    assert!(emit_part(&double, &[], 96).is_err());
    assert!(emit_part(&[double[1], double[0]], &[], 96).is_err());
}

#[test]
fn a_track_is_read_again_from_its_own_text() {
    for text in ["  c4,e4 ", "mml@t90c,d,;", "MML@;", ""] {
        let track = track_from_mml(text.to_owned(), Meta::new(), 3).unwrap();
        let again = track_from_mml(track.mml.clone(), Meta::new(), 3).unwrap();
        assert_eq!(again.mml, track.mml);
        assert_eq!(again.parts, track.parts);
        assert_eq!(again.tempos, track.tempos);
        assert!(track.mml.to_ascii_uppercase().starts_with("MML@") && track.mml.ends_with(';'));
        assert_eq!(track.parts.len(), track.mml.matches(',').count() + 1);
        for (p, part) in track.parts.iter().enumerate() {
            assert!(part.iter().all(|n| n.src == (3, p)));
        }
    }
}

fn source(parts: Vec<Vec<Note>>) -> Score {
    let texts: Vec<_> = parts.iter().map(|p| emit_part(p, &[], 0).unwrap()).collect();
    parse_mmi(&format!("[mml-score]\ntempo=0T120\nmml-track=MML@{};\n", texts.join(","))).unwrap()
}

#[test]
fn a_score_that_was_prepared_stays() {
    let score = source(vec![
        vec![note(0, 19, 60), note(31, 49, 62), note(1008, 1032, 64)],
        vec![note(19, 43, 67)],
    ]);
    let (out, moved) = prepare_score(&score).unwrap();
    assert!(moved > 0);
    let (again, none) = prepare_score(&out).unwrap();
    assert_eq!(none, 0);
    assert_eq!(serialize_mmi(&again), serialize_mmi(&out));
    let (a, b) = (score.all_notes(), out.all_notes());
    assert_eq!(a.len(), b.len());
    for (x, y) in a.iter().zip(&b) {
        assert_eq!((x.pitch, x.vel, x.src), (y.pitch, y.vel, y.src));
        assert!((x.on - y.on).abs() <= 3 && (x.off - y.off).abs() <= 3);
    }
    assert_eq!((b[0].off, b[3].on), (18, 18));
}

#[test]
fn there_are_as_many_lanes_as_voices() {
    let notes = vec![
        note(0, 96, 60),
        note(0, 48, 64),
        note(24, 72, 67),
        note(48, 96, 65),
        note(96, 192, 60),
    ];
    assert_eq!(monophonic_lanes(&notes).unwrap().len(), max_polyphony(&notes));
    let many: Vec<_> = (0..256).map(|i| note(0, 96, i)).collect();
    assert_eq!(monophonic_lanes(&many).unwrap().len(), 256);
    let more: Vec<_> = (0..257).map(|i| note(0, 96, i)).collect();
    assert!(monophonic_lanes(&more).is_err());
}

#[test]
fn nothing_is_lost_where_no_more_sounds_than_may() {
    let score = Score {
        tracks: (0..3)
            .map(|t| Track {
                parts: vec![vec![note(t * 24, 96 + t * 24, 60 + t as i32)]],
                ..Track::default()
            })
            .collect(),
        ..Score::default()
    };
    let notes = analyze(&score).unwrap();
    let before: Vec<_> = notes.iter().map(|n| n.note).collect();
    let (after, kept, stats) = reduce(notes, 3);
    assert_eq!(after.iter().map(|n| n.note).collect::<Vec<_>>(), before);
    assert_eq!(kept, vec![0, 1, 2]);
    assert_eq!((stats.truncated, stats.dropped), (0, 0));
    assert_eq!(count_shortened(&after, &before, &kept), 0);
    let (fewer, kept, stats) = reduce(analyze(&score).unwrap(), 2);
    assert_eq!(count_shortened(&fewer, &before, &kept), stats.truncated);
}

#[test]
fn attacks_of_a_track_survive_its_tempos() {
    let struck = |notes: &[Note]| {
        notes
            .iter()
            .filter(|n| n.vel > 0)
            .map(|n| (n.on, n.pitch, n.vel))
            .collect::<Vec<_>>()
    };
    let parts = vec![
        vec![note(0, 192, 60), note(192, 384, 62)],
        vec![note(0, 384, 48)],
        vec![],
        vec![note(0, 384, 72)],
    ];
    let track = emit_track(&parts, &[(0, 120), (48, 90), (200, 150)], 384).unwrap();
    assert!(track.tempo_note_splits > 0);
    for (part, text) in parts.iter().zip(&track.parts) {
        let (notes, _, _) = parse_part(text, (0, 0)).unwrap();
        assert_eq!(struck(&notes), struck(part));
    }
}

#[test]
fn later_notes_change_no_row() {
    let part = vec![note(0, 90, 60), note(96, 192, 62)];
    let other = vec![note(0, 480, 48)];
    let make = |parts: Vec<Vec<Note>>| Score {
        tracks: parts
            .into_iter()
            .map(|p| Track {
                parts: vec![p],
                ..Track::default()
            })
            .collect(),
        ..Score::default()
    };
    let rows = features(&make(vec![part.clone(), other.clone()]));
    let mut longer = part;
    longer.push(note(200, 300, 99));
    let mut held = other;
    held.push(note(480, 500, 20));
    let more = features(&make(vec![longer, held]));
    assert_eq!((rows.len(), more.len()), (3, 5));
    assert_eq!(more[..2], rows[..2]);
    assert_eq!(more[3], rows[2]);
}

#[test]
fn what_is_asked_for_is_checked() {
    let fine = Ensemble {
        tracks: 2,
        parts: 3,
        layout: Layout::Hands,
        volume_range: Some(VolumeRange { min: 11, max: 15 }),
    };
    assert_eq!(check_options(&fine), Ok(()));
    assert_eq!(check_options(&Ensemble { tracks: 0, ..fine }), Err(OptionFault::Tracks));
    assert_eq!(check_options(&Ensemble { tracks: 17, ..fine }), Err(OptionFault::Tracks));
    assert_eq!(check_options(&Ensemble { parts: 4, ..fine }), Err(OptionFault::Parts));
    let odd = Some(VolumeRange { min: 12, max: 11 });
    let wrong = Ensemble { tracks: 0, volume_range: odd, ..fine };
    assert_eq!(check_options(&wrong), Err(OptionFault::Volume));
    assert_eq!(OptionFault::Tracks.message(), "Output tracks must be between 1 and 16");
    assert!(next_try(true, 1, true));
    assert!(!next_try(false, 1, true) && !next_try(true, 2, true) && !next_try(true, 1, false));
    assert_eq!(report_try("a", 1), "a");
    assert_eq!(
        report_try("a", 2),
        "a\nreduction : original interval priorities to preserve exact MML timing"
    );
}

#[test]
fn names_in_good_text_are_read_as_they_are() {
    assert_eq!(clean_name("첫째  트랙\n".as_bytes()), "첫째 트랙");
    assert_eq!(clean_name(&[b'a', 0xff, b'b']), "a\u{fffd}b");
}
