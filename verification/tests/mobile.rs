//! Scores are made readable for mobile players by moving moments a little.
use mmlfold::adapt::score_is_compatible;
use mmlfold::mmi::{parse_mmi, serialize_mmi};
use mmlfold::mobile::{compatible_duration, inverse_table};
use mmlfold::prepare::prepare_score;
use mmlfold::writer::emit_part;
use mmlfold::{Meta, Note, Score, Tempo, Tick, Track};

fn meta(entries: &[(&str, &str)]) -> Meta {
    let mut meta = Meta::new();
    for &(key, value) in entries {
        meta.insert(key.to_owned(), value.to_owned());
    }
    meta
}

fn score(parts: &[&[(Tick, Tick, i32)]], tempos: &[Tempo]) -> Score {
    let parts: Vec<Vec<_>> = parts
        .iter()
        .enumerate()
        .map(|(pi, notes)| {
            notes
                .iter()
                .map(|&(on, off, pitch)| Note {
                    on,
                    off,
                    pitch,
                    vel: 11,
                    src: (0, pi),
                })
                .collect()
        })
        .collect();
    let mml = parts
        .iter()
        .enumerate()
        .map(|(pi, notes)| {
            emit_part(notes, if pi == 0 { tempos } else { &[] }, 0).unwrap()
        })
        .collect::<Vec<_>>();
    Score {
        head: vec![
            "[mml-score]".into(),
            format!(
                "tempo={}",
                tempos
                    .iter()
                    .map(|(t, v)| format!("{t}T{v}"))
                    .collect::<Vec<_>>()
                    .join(",")
            ),
        ],
        tracks: vec![Track {
            mml: format!("MML@{};", mml.join(",")),
            meta: meta(&[("name", "검사 악보"), ("visible", "true")]),
            parts,
            tempos: tempos.to_vec(),
        }],
        tail: vec!["[time-signature]".into(), "0=4/4".into()],
    }
}

#[test]
fn mobile_inverse_and_remainder_examples_match_upstream() {
    assert_eq!(inverse_table().iter().filter(|&&value| value).count(), 397);
    for ticks in [0, 6, 8, 9, 14, 17, 18, 20, 71, 83, 95, 114, 116, 768] {
        assert!(compatible_duration(ticks), "{ticks}");
    }
    for ticks in [
        -1, 1, 2, 3, 4, 5, 7, 10, 11, 13, 19, 55, 67, 101, 103, 107, 115, 193, 195, 385, 386,
        387, 579, 769,
    ] {
        assert!(!compatible_duration(ticks), "{ticks}");
    }
    for ticks in (6..=60_000).step_by(6) {
        assert!(compatible_duration(ticks), "{ticks}");
    }
}

#[test]
fn compatible_score_keeps_exact_mml_and_timing() {
    let mut original = score(&[&[(0, 17, 60), (31, 102, 62)]], &[(0, 120)]);
    original.tracks[0].mml = "MML@t120v11c22r27d8&d64&d64.&d48;".into();
    let before = serialize_mmi(&original);
    assert_eq!(
        parse_mmi(&before).unwrap().all_notes(),
        original.all_notes()
    );
    assert!(score_is_compatible(&original));
    let (prepared, changes) = prepare_score(&original).unwrap();
    assert_eq!(changes, 0);
    assert_eq!(serialize_mmi(&prepared), before);
    assert_eq!(prepared.all_notes(), original.all_notes());
}

#[test]
fn shared_boundary_changes_propagate_without_global_quantization() {
    let mut original = score(
        &[&[(0, 19, 60), (31, 49, 62), (1008, 1032, 64)]],
        &[(0, 120)],
    );
    let mut other = score(&[&[(19, 43, 67)]], &[(0, 120)]).tracks.remove(0);
    other.parts[0][0].src = (1, 0);
    original.tracks.push(other);
    let before = serialize_mmi(&original);
    let (prepared, changes) = prepare_score(&original).unwrap();
    assert_eq!(changes, 3);
    assert_eq!(prepared.tracks[0].parts[0][0].off, 18);
    assert_eq!(
        (
            prepared.tracks[0].parts[0][1].on,
            prepared.tracks[0].parts[0][1].off
        ),
        (30, 48)
    );
    assert_eq!(prepared.tracks[1].parts[0][0].on, 18);
    assert_eq!(prepared.tracks[1].parts[0][0].off, 43);
    assert_eq!(
        prepared.tracks[0].parts[0][2],
        original.tracks[0].parts[0][2]
    );
    assert_eq!(serialize_mmi(&original), before);
    assert!(score_is_compatible(&prepared));
    for (old, new) in original.all_notes().iter().zip(prepared.all_notes()) {
        assert!((old.on - new.on).abs() <= 1 && (old.off - new.off).abs() <= 1);
        assert_eq!((old.pitch, old.vel, old.src), (new.pitch, new.vel, new.src));
    }
    let reparsed = parse_mmi(&serialize_mmi(&prepared)).unwrap();
    assert_eq!(reparsed.all_notes(), prepared.all_notes());
    let (again, changes) = prepare_score(&prepared).unwrap();
    assert_eq!(changes, 0);
    assert_eq!(serialize_mmi(&again), serialize_mmi(&prepared));
}

#[test]
fn tempo_and_meter_follow_shared_adjusted_boundaries() {
    let mut original = score(&[&[(0, 115, 60)], &[(19, 43, 67)]], &[(0, 120), (19, 144)]);
    original.tail.push("19=3/4".into());
    original.tail.extend(["[marker]".into(), "19=표시".into()]);
    let (prepared, changes) = prepare_score(&original).unwrap();
    assert_eq!(changes, 2);
    assert_eq!(prepared.tempos(), [(0, 120), (18, 144)]);
    assert_eq!(prepared.tracks[0].parts[0][0].off, 114);
    assert_eq!(prepared.tracks[0].parts[1][0].on, 18);
    assert!(prepared.head.contains(&"tempo=0T120,18T144".into()));
    assert!(prepared.tail.contains(&"18=3/4".into()));
    assert!(prepared.tail.contains(&"19=표시".into()));
    let reparsed = parse_mmi(&serialize_mmi(&prepared)).unwrap();
    assert_eq!(reparsed.tempos(), prepared.tempos());
    assert_eq!(reparsed.all_notes(), prepared.all_notes());
}

#[test]
fn header_only_tempos_remain_complete_after_mml_regeneration() {
    let mut original = score(&[&[(0, 115, 60)]], &[]);
    original.head[1] = "tempo=0T120,19T144".into();
    original
        .tracks
        .push(score(&[&[(0, 115, 67)]], &[]).tracks.remove(0));
    original.tracks[1].parts[0][0].src = (1, 0);
    let before = parse_mmi(&serialize_mmi(&original)).unwrap();
    assert_eq!(before.all_notes(), original.all_notes());
    assert_eq!(before.tempos(), original.tempos());
    let (prepared, _) = prepare_score(&original).unwrap();
    let reparsed = parse_mmi(&serialize_mmi(&prepared)).unwrap();
    assert_eq!(reparsed.all_notes(), prepared.all_notes());
    assert_eq!(reparsed.tempos(), [(0, 120), (18, 144)]);
    assert!(prepared.tracks.iter().all(|track| track.tempos.is_empty()));
    assert!(score_is_compatible(&reparsed));
}

#[test]
fn tempo_subdivision_only_constrains_the_actual_carrier() {
    let original = score(&[&[(0, 24, 60)], &[(9, 33, 67)]], &[(0, 120), (12, 144)]);
    assert!(score_is_compatible(&original));
    assert_eq!(prepare_score(&original).unwrap().1, 0);
}

#[test]
fn impossible_short_span_returns_an_error_without_mutating_the_score() {
    let mut original = score(&[&[(0, 12, 60)]], &[(0, 120)]);
    original.tracks[0].parts[0][0].off = 2;
    let before = original.all_notes();
    assert!(!score_is_compatible(&original));
    assert!(prepare_score(&original).is_err());
    assert_eq!(original.all_notes(), before);
}

#[test]
fn difficult_long_durations_promote_only_the_required_boundaries() {
    for ticks in [195, 386, 387, 579, 962] {
        let original = score(&[&[(0, ticks, 60)]], &[(0, 120)]);
        let (prepared, changes) = prepare_score(&original).unwrap();
        assert_eq!(changes, 1);
        let note = &prepared.tracks[0].parts[0][0];
        assert_eq!(note.on, 0);
        assert!((note.off - ticks).abs() <= 3);
        assert!(score_is_compatible(&prepared));
        assert_eq!(prepared.all_notes().len(), original.all_notes().len());
        assert_eq!((note.pitch, note.vel, note.src), (60, 11, (0, 0)));
    }
}

#[test]
fn promotion_preserves_cross_part_and_meter_order() {
    let mut original = score(&[&[(0, 195, 60)], &[(196, 220, 67)]], &[(0, 120)]);
    original.tail.push("196=3/4".into());
    let (prepared, _) = prepare_score(&original).unwrap();
    assert_eq!(prepared.tracks[0].parts[0][0].off, 198);
    assert_eq!(prepared.tracks[0].parts[1][0].on, 198);
    assert_eq!(prepared.tracks[0].parts[1][0].off, 220);
    assert!(prepared.tail.contains(&"198=3/4".into()));
    assert!(score_is_compatible(&prepared));
    assert_eq!(prepare_score(&prepared).unwrap().1, 0);
}

#[test]
fn trailing_carrier_rest_checks_the_whole_span_and_tempo_fragments() {
    let original = score(
        &[&[(0, 6, 60)], &[(0, 384, 67)]],
        &[(0, 120), (70, 130), (106, 140), (115, 150), (121, 160)],
    );
    assert!(!score_is_compatible(&original));
    let (prepared, changes) = prepare_score(&original).unwrap();
    assert!(changes > 0);
    assert!(score_is_compatible(&prepared));
    let reparsed = parse_mmi(&serialize_mmi(&prepared)).unwrap();
    assert_eq!(reparsed.tempos(), prepared.tempos());
    assert_eq!(reparsed.all_notes(), prepared.all_notes());
}
