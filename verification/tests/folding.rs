//! Notes are weighed, thinned out, given to parts and written again.
use mmlfold::arranging::{arrange_slots, pick_notes, ArrangeError};
use mmlfold::bars::{bar_map, bar_of};
use mmlfold::encode::{encode_slots, EncodeError, Ensemble};
use mmlfold::fold::{analyze, find_loudest, shift_volume, Gain, Layout, NoteFault, VolumeRange, WorkingNote};
use mmlfold::homes::{mean, repack_tracks, slot_homes};
use mmlfold::musical::{
    bands, fill_bands, group_by_track, line_jobs, musical_homes, place_rest, split_hands, LineKind,
    Pool,
};
use mmlfold::onsets::{onsets, Line};
use mmlfold::packing::{legacy_repack, repack, Centre, Homes, PackError};
use mmlfold::polyphony::max_polyphony;
use mmlfold::ratio::{less_mean, less_ratio};
use mmlfold::reduce::{reduce, Reduction};
use mmlfold::report::{fold_report, role, Findings};
use mmlfold::salience::features;
use mmlfold::seating::{add_track, divide, Seating};
use mmlfold::voicing::{group_by_source, overlap, sort_by_start, weigh_voice};
use mmlfold::{Note, Score, Tick, Track};

fn note(on: Tick, off: Tick, pitch: i32) -> Note {
    Note {
        on,
        off,
        pitch,
        vel: 8,
        src: (0, 0),
    }
}

/// A score in which every voice is a track of one part.
fn source(voices: &[&[(Tick, Tick, i32)]]) -> Score {
    Score {
        tracks: voices
            .iter()
            .enumerate()
            .map(|(track, voice)| Track {
                parts: vec![voice
                    .iter()
                    .map(|&(on, off, pitch)| Note {
                        src: (track, 0),
                        ..note(on, off, pitch)
                    })
                    .collect()],
                ..Track::default()
            })
            .collect(),
        ..Score::default()
    }
}

fn bare(notes: &[WorkingNote]) -> Vec<Note> {
    notes.iter().map(|n| n.note).collect()
}

fn homes(home: &[Option<usize>], centres: &[i128]) -> Homes {
    Homes {
        home: home.to_vec(),
        centre: centres.iter().map(|&sum| Centre { sum, len: 1 }).collect(),
        primary_lead: Vec::new(),
    }
}

#[test]
fn notes_weigh_by_volume_movement_and_length() {
    let notes = analyze(&source(&[&[(0, 96, 60), (96, 192, 62)]])).unwrap();
    assert_eq!((notes[0].activity, notes[0].onset_activity, notes[0].base), (1, 0, 592));
    assert_eq!((notes[1].activity, notes[1].onset_activity, notes[1].base), (1, 1, 656));
    assert_eq!(notes[1].original_velocity, 8);
}

#[test]
fn notes_that_cannot_be_arranged_are_named() {
    let fault = |score: &Score| analyze(score).unwrap_err();
    assert_eq!(
        fault(&source(&[&[(0, 96, 60)], &[(0, 96, 60), (48, 144, 62)]])),
        NoteFault::Overlap { track: 2, part: 1, tick: 48 }
    );
    assert_eq!(
        fault(&source(&[&[(0, 5, 60)]])),
        NoteFault::Short { track: 1, part: 1, tick: 0 }
    );
    let mut loud = source(&[&[(0, 96, 60)]]);
    loud.tracks[0].parts[0][0].vel = 16;
    assert_eq!(fault(&loud), NoteFault::Volume { track: 1, part: 1, volume: 16 });
    assert_eq!(pick_notes(&loud, 3, Gain::Auto).unwrap_err(), fault(&loud));
}

#[test]
fn volumes_are_moved_and_spread_over_a_range() {
    let range = VolumeRange { min: 11, max: 15 };
    assert!(range.is_valid() && !VolumeRange { min: 0, max: 3 }.is_valid());
    assert_eq!([0, 1, 8, 15].map(|v| range.compress(v)), [0, 11, 13, 15]);
    let mut notes = analyze(&source(&[&[(0, 96, 60), (96, 192, 62)]])).unwrap();
    notes[1].note.vel = 12;
    let kept = vec![0, 1];
    assert_eq!(find_loudest(&notes, &kept), Some(12));
    assert_eq!(shift_volume(&mut notes.clone(), &kept, Gain::Unchanged), (0, 0));
    let mut louder = notes.clone();
    assert_eq!(shift_volume(&mut louder, &kept, Gain::Auto), (3, 0));
    assert_eq!((louder[0].note.vel, louder[1].note.vel), (11, 15));
    assert_eq!(shift_volume(&mut notes, &kept, Gain::Shift(5)), (5, 1));
    assert_eq!((notes[0].note.vel, notes[1].note.vel), (13, 15));
}

#[test]
fn inner_notes_give_way_first() {
    let chord = analyze(&source(&[&[(0, 96, 60)], &[(0, 96, 64)], &[(0, 96, 67)]])).unwrap();
    let (notes, kept, stats) = reduce(chord, 2);
    assert_eq!(kept, vec![0, 2]);
    assert_eq!((stats.total, stats.kept, stats.truncated, stats.dropped), (3, 2, 0, 1));
    assert_eq!(notes[1].note.off, 0);

    let held = source(&[&[(0, 384, 60)], &[(0, 384, 67)], &[(96, 384, 72)]]);
    let (notes, kept, stats) = reduce(analyze(&held).unwrap(), 2);
    assert_eq!(kept, vec![0, 1, 2]);
    assert_eq!((notes[1].note.on, notes[1].note.off), (0, 96));
    assert_eq!((stats.truncated, stats.dropped), (1, 0));
    assert_eq!(max_polyphony(&bare(&notes)), 2);

    let picked = pick_notes(&held, 2, Gain::Auto).unwrap();
    assert_eq!(picked.kept, kept);
    assert_eq!(picked.stats.volume_shift, 7);
    assert!(picked.kept.iter().all(|&i| picked.notes[i].note.vel == 15));
}

#[test]
fn a_reduction_can_be_led_step_by_step() {
    let chord = analyze(&source(&[&[(0, 96, 60)], &[(0, 96, 64)], &[(0, 96, 67)]])).unwrap();
    let mut state = Reduction::new(chord, 2, true);
    let mut steps = 0;
    while state.advance() {
        while state.is_crowded() {
            let weights = state.weights();
            assert_eq!(weights.len(), 3);
            assert!(weights.iter().all(|w| w.age == 0));
            assert!(weights[2].value > weights[1].value);
            state.drop_one(&vec![3, 2, 1]);
            steps += 1;
        }
    }
    let (_, kept, stats) = state.finish();
    assert_eq!((steps, stats.dropped), (1, 1));
    assert_eq!(kept, vec![0, 1]);
}

#[test]
fn notes_stray_only_where_their_part_is_taken() {
    let notes = vec![note(0, 96, 60), note(0, 96, 72), note(96, 192, 60)];
    let kept = vec![0, 1, 2];
    let home = [Some(0), Some(0), Some(0)];
    let plan = homes(&home, &[60, 72]);
    let (parts, spill) = legacy_repack(&notes, &kept, &plan).unwrap();
    assert_eq!((parts, spill), (vec![vec![1, 2], vec![0]], 1));
    let (parts, spill) = repack(&notes, &kept, &plan).unwrap();
    assert_eq!(parts.iter().map(Vec::len).sum::<usize>(), 3);
    assert!(spill >= 1);
    for part in &parts {
        assert!(part.windows(2).all(|w| notes[w[0]].off <= notes[w[1]].on));
    }
    let one = homes(&home, &[60]);
    assert_eq!(
        legacy_repack(&notes, &kept, &one).unwrap_err(),
        PackError::Exceeds { tick: 0 }
    );
    assert_eq!(repack(&notes, &kept, &one).unwrap_err(), PackError::Exceeds { tick: 0 });
    let lost = homes(&[None, Some(0), Some(0)], &[60, 72]);
    assert_eq!(legacy_repack(&notes, &kept, &lost).unwrap_err(), PackError::NoHome);
    assert_eq!(repack(&notes, &kept, &lost).unwrap_err(), PackError::NoHome);
}

#[test]
fn tracks_are_filled_each_for_itself() {
    let notes = vec![note(0, 96, 60), note(0, 96, 72), note(0, 96, 48)];
    let kept = vec![0, 1, 2];
    let plan = homes(&[Some(2), Some(0), Some(2)], &[72, 60, 60, 48]);
    for legacy in [false, true] {
        let (parts, spill) = repack_tracks(&notes, &kept, &plan, 2, 2, legacy).unwrap();
        assert_eq!(parts[0], vec![1]);
        assert_eq!(parts[1], Vec::<usize>::new());
        assert_eq!(parts[2].len() + parts[3].len(), 2);
        assert_eq!(spill, 1);
    }
    let back = slot_homes(&notes, &vec![vec![1], vec![], vec![0, 2]]);
    assert_eq!(back.home, vec![Some(2), Some(0), Some(2)]);
    let centres: Vec<_> = back.centre.iter().map(|c| (c.sum, c.len)).collect();
    assert_eq!(centres, vec![(72, 1), (60, 1), (108, 2)]);
    let middle = mean(&notes, &vec![0, 1]);
    assert_eq!((middle.sum, middle.len), (132, 2));
}

#[test]
fn bars_follow_the_signatures() {
    let tail = |lines: &[&str]| lines.iter().map(|s| s.to_string()).collect::<Vec<_>>();
    assert_eq!(bar_map(&Vec::new()), vec![(0, 384)]);
    let meters = bar_map(&tail(&["[time-signature]", "0=3/4", " 576 = 4 / 4 ", "x", "[other]", "0=1/4"]));
    assert_eq!(meters, vec![(0, 288), (576, 384)]);
    assert_eq!([0, 287, 288, 576, 960].map(|t| bar_of(t, &meters)), [1, 1, 2, 3, 4]);
    assert_eq!(bar_map(&tail(&["0=3/4"])), vec![(0, 384)]);
    assert_eq!(bar_map(&tail(&["[time-signature]", "96=2/4"])), vec![(0, 384), (96, 192)]);
}

#[test]
fn onsets_and_lines_go_forward_in_time() {
    let notes = vec![note(96, 192, 60), note(0, 96, 72), note(0, 200, 48), note(192, 288, 50)];
    let moments = onsets(&notes, &vec![0, 1, 2, 3]);
    let found: Vec<_> = moments.iter().map(|o| (o.tick, o.notes.clone())).collect();
    assert_eq!(found, vec![(0, vec![1, 2]), (96, vec![0]), (192, vec![3])]);
    let mut line = Line::new(notes, &vec![0, 1, 2, 3], &vec![false, true, false, false]);
    assert_eq!(line.candidates(), Some(vec![2]));
    assert_eq!(line.take(&vec![7]), 2);
    assert_eq!(line.candidates(), None);
    assert_eq!(line.finish(), vec![2]);
}

#[test]
fn lines_are_drawn_for_hands_and_roles() {
    let jobs: Vec<_> = line_jobs(Layout::Hands, 1, 3)
        .iter()
        .map(|j| (j.slot, j.pool, j.kind))
        .collect();
    assert_eq!(
        jobs,
        vec![
            (0, Pool::Upper, LineKind::Lead),
            (2, Pool::Lower, LineKind::Bass),
            (1, Pool::All, LineKind::Mid),
        ]
    );
    let roles: Vec<_> = line_jobs(Layout::Roles, 2, 2).iter().map(|j| (j.slot, j.kind)).collect();
    assert_eq!(
        roles,
        vec![
            (0, LineKind::Lead),
            (2, LineKind::Lead),
            (1, LineKind::Bass),
            (3, LineKind::Bass),
        ]
    );
    assert_eq!(line_jobs(Layout::Hands, 2, 1).len(), 2);
    assert_eq!(role(Layout::Hands, 3, 0), "right");
    assert_eq!(role(Layout::Hands, 3, 5), "left");
    assert_eq!(role(Layout::Roles, 3, 1), "inner");
    assert_eq!(role(Layout::Roles, 1, 4), "lead");

    let score = source(&[&[(0, 96, 72)], &[(0, 96, 60)], &[(0, 96, 48)]]);
    let notes = analyze(&score).unwrap();
    let kept = vec![0, 1, 2];
    assert_eq!(bands(&notes, &kept, 2), vec![vec![0, 1], vec![2]]);
    assert_eq!(group_by_track(&notes, &kept, &score), vec![vec![0], vec![1], vec![2]]);
    assert_eq!(split_hands(&notes, &kept, &score), (vec![0], vec![1, 2]));
    let one = source(&[&[(0, 96, 72), (96, 192, 48), (192, 288, 60)]]);
    let notes = analyze(&one).unwrap();
    assert_eq!(split_hands(&notes, &kept, &one), (vec![0, 2], vec![1]));

    let plan = musical_homes(&bare(&notes), &kept, &vec![vec![0], vec![1]], Layout::Roles, 1, 2);
    assert_eq!(plan.home, vec![Some(0), Some(1), Some(0)]);
    assert_eq!(plan.primary_lead, vec![0]);
}

#[test]
fn notes_that_no_line_takes_go_to_the_middle_parts() {
    let score = source(&[&[(0, 96, 72)], &[(0, 96, 60)], &[(0, 96, 48)], &[(0, 96, 66)]]);
    let notes = analyze(&score).unwrap();
    let kept = vec![0, 1, 2, 3];
    let taken = vec![true, false, false, false];
    let start = vec![vec![0], vec![], vec![], vec![], vec![], vec![]];
    let mut lines = start.clone();
    place_rest(&notes, &kept, &taken, &mut lines, Layout::Roles, 2, 3);
    assert_eq!(lines, vec![vec![0], vec![3, 1], vec![], vec![], vec![2], vec![]]);
    let mut hands = start.clone();
    place_rest(&notes, &kept, &taken, &mut hands, Layout::Hands, 2, 3);
    assert_eq!(hands, start);
    let mut pairs = vec![vec![0], vec![], vec![], vec![]];
    fill_bands(&mut pairs, &vec![vec![1], vec![2]], Layout::Roles, 2);
    assert_eq!(pairs, vec![vec![0], vec![], vec![], vec![]]);
    fill_bands(&mut lines, &vec![vec![1], vec![]], Layout::Learned, 3);
    assert_eq!(lines, vec![vec![0], vec![1], vec![], vec![], vec![], vec![]]);
}

#[test]
fn fractions_are_compared_however_large_they_are() {
    assert!(less_ratio(1, 3, 1, 2) && !less_ratio(1, 2, 1, 3) && !less_ratio(2, 4, 1, 2));
    let most = u64::MAX;
    assert!(less_ratio(u128::MAX - 1, most, u128::MAX, most - 1));
    assert!(less_ratio(u128::from(most) - 1, most, 1, 1));
    assert!(!less_ratio(u128::from(most), most, 1, 1));
    assert!(less_mean(-1, 2, 0, 1) && !less_mean(0, 1, -1, 2));
    assert!(less_mean(-3, 2, -4, 3) && !less_mean(-4, 3, -3, 2));
}

#[test]
fn the_first_track_that_overflows_tells_why() {
    let notes = vec![note(96, 192, 60), note(102, 192, 62), note(0, 96, 48), note(6, 96, 50)];
    let plan = homes(&[Some(0), Some(0), Some(1), Some(1)], &[60, 50]);
    let kept = vec![0, 1, 2, 3];
    for legacy in [false, true] {
        assert_eq!(
            repack_tracks(&notes, &kept, &plan, 2, 1, legacy),
            Err(PackError::Exceeds { tick: 102 })
        );
        assert_eq!(
            repack_tracks(&notes, &vec![0, 2, 3], &plan, 2, 1, legacy),
            Err(PackError::Exceeds { tick: 6 })
        );
    }
}

#[test]
fn voices_of_the_source_are_seated_by_weight_and_cost() {
    let mut notes = vec![note(96, 192, 60), note(0, 96, 62), note(0, 48, 72), note(0, 24, 50)];
    notes[2].src = (1, 0);
    notes[3].src = (2, 0);
    let kept = vec![0, 1, 2, 3];
    let voices = group_by_source(&notes, &kept);
    assert_eq!(voices, vec![vec![1, 0], vec![2], vec![3]]);
    assert_eq!(sort_by_start(&notes, &vec![0, 2]), vec![2, 0]);
    assert_eq!(weigh_voice(&notes, &voices[0]), 192);
    assert_eq!(overlap(&notes, &voices[0], &voices[1]), 48);

    let mut seating = Seating::new(notes.clone(), &kept, 2);
    assert_eq!(seating.sequence, vec![0, 1, 2]);
    seating.seat_heaviest(&vec![61, 72, 50]);
    assert_eq!(seating.content, vec![vec![2], vec![1, 0]]);
    assert_eq!(seating.waiting(), Some(2));
    assert_eq!(seating.seat_next(&vec![4, 4]), 0);
    assert_eq!(seating.content[0], vec![2, 3]);
    assert_eq!(seating.waiting(), None);
    let local = seating.finish();
    assert_eq!(local.home, vec![Some(1), Some(1), Some(0), Some(0)]);
    assert_eq!((local.centre[0].sum, local.centre[0].len), (122, 2));

    assert_eq!(divide(&kept, &vec![true, false, false, true]), (vec![0, 3], vec![1, 2]));
    let mut all = homes(&[None; 4], &[60; 4]);
    add_track(&mut all, &local, &vec![0, 3], 2);
    assert_eq!(all.home, vec![Some(3), None, None, Some(2)]);
    assert_eq!(all.centre[2].sum, 122);
    assert_eq!(all.centre[1].sum, 60);
}

#[test]
fn what_is_counted_of_a_note_looks_back_only() {
    let mut score = source(&[&[(0, 90, 60), (96, 192, 60), (200, 248, 64)], &[(96, 480, 67)]]);
    score.tracks[1].parts[0][0].vel = 12;
    let rows = features(&score);
    assert_eq!(rows.len(), 4);
    let second = &rows[1];
    assert_eq!((second.duration, second.gap, second.step, second.run), (96, Some(6), 0, 192));
    assert_eq!(second.beat, 3);
    assert_eq!((second.attack.count, second.attack.below, second.attack.equal), (2, 0, 1));
    assert_eq!((second.attack.top, second.attack.pitches, second.attack.durations), (67, 127, 480));
    assert_eq!(second.attack.loudest, 12);
    assert_eq!((second.window.count, second.window.recent, second.window.distinct), (1, 1, 1));
    assert_eq!((second.window.weight, second.window.pitches, second.window.occupied), (90, 5400, 90));
    let third = &rows[2];
    assert_eq!((third.gap, third.step, third.run, third.beat), (Some(8), 4, 48, 0));
    assert_eq!((third.sounding.count, third.sounding.below, third.sounding.top), (2, 0, 67));
    assert_eq!((third.attack.count, third.attack.top), (1, 64));
    assert_eq!((third.window.count, third.window.recent, third.window.distinct), (2, 0, 1));
    assert_eq!((third.window.low, third.window.high, third.window.occupied), (60, 60, 186));
    assert_eq!(rows[0].gap, None);

    let mut later = source(&[&[(0, 90, 60), (96, 192, 60), (200, 248, 64)], &[(96, 480, 67)]]);
    later.tracks[1].parts[0][0].vel = 12;
    later.tracks[0].parts[0].push(note(300, 400, 99));
    let more = features(&later);
    assert_eq!(more[..3], rows[..3]);
}

#[test]
fn an_arrangement_is_written_and_reported() {
    let score = source(&[&[(0, 96, 60)], &[(0, 96, 64)], &[(96, 192, 62)]]);
    let picked = pick_notes(&score, 2, Gain::Unchanged).unwrap();
    let ensemble = Ensemble {
        tracks: 1,
        parts: 2,
        layout: Layout::Voices,
        volume_range: None,
    };
    let plan = homes(&[Some(0), Some(0), Some(0)], &[60, 64]);
    let arranged =
        arrange_slots(&picked.notes, &picked.kept, &plan, None, &score, &ensemble).unwrap();
    assert!(!arranged.exact_fallback);
    assert_eq!(arranged.score.tracks.len(), 1);
    let written = &arranged.score.tracks[0];
    let mut pitches: Vec<_> = written.parts.iter().flatten().map(|n| (n.on, n.off, n.pitch)).collect();
    pitches.sort_unstable();
    assert_eq!(pitches, vec![(0, 96, 60), (0, 96, 64), (96, 192, 62)]);
    assert!(written.mml.starts_with("MML@") && written.mml.ends_with(';'));
    let means = vec!["64.0".to_owned(), "61.0".to_owned()];
    let mut stats = picked.stats;
    stats.spill = arranged.spill;
    let report = fold_report(&Findings {
        notes: &picked.notes,
        kept: &picked.kept,
        slots: &arranged.slots,
        sequence: &arranged.sequence,
        stats,
        ensemble,
        gain: Gain::Unchanged,
        clipped: 0,
        exact_fallback: false,
        attack_fallback: false,
        lead: None,
        percent: "33.33",
        means: &means,
        tail: &score.tail,
    });
    let lines: Vec<_> = report.split('\n').collect();
    assert_eq!(lines[0], "notes in  : 3");
    assert_eq!(lines[1], "kept      : 3");
    assert_eq!(lines[2], "truncated : 0  (attack kept, tail shortened)");
    assert_eq!(lines[3], "dropped   : 0");
    assert_eq!(
        lines[4],
        format!("voice spill: {} notes (33.33%) used another slot for continuity or polyphony", stats.spill)
    );
    assert_eq!(lines[5], "layout    : voices");
    assert!(lines[6].starts_with("track1 part0: ") && lines[6].ends_with(", mean 64.0"));
    assert_eq!(lines.len(), 8);
}

#[test]
fn an_arrangement_that_cannot_be_written_is_tried_plainly() {
    let score = source(&[&[(0, 96, 60)], &[(99, 192, 64)]]);
    let picked = pick_notes(&score, 2, Gain::Unchanged).unwrap();
    let ensemble = Ensemble {
        tracks: 1,
        parts: 2,
        layout: Layout::Voices,
        volume_range: None,
    };
    let given = vec![vec![0, 1], vec![]];
    assert!(matches!(
        encode_slots(&picked.notes, &picked.kept, &given, &score, &ensemble),
        Err(EncodeError::Part { .. })
    ));
    let plan = homes(&[Some(0), Some(1)], &[60, 64]);
    let arranged =
        arrange_slots(&picked.notes, &picked.kept, &plan, Some(given), &score, &ensemble).unwrap();
    assert!(arranged.exact_fallback);
    assert_eq!((arranged.slots, arranged.spill), (vec![vec![0], vec![1]], 0));
    let bad = homes(&[Some(0), Some(0)], &[60, 64]);
    assert!(matches!(
        arrange_slots(
            &picked.notes,
            &picked.kept,
            &bad,
            Some(vec![vec![0, 1], vec![]]),
            &score,
            &ensemble
        ),
        Err(ArrangeError::Encode(_))
    ));
    let lost = homes(&[None, None], &[60, 64]);
    assert!(matches!(
        arrange_slots(&picked.notes, &picked.kept, &lost, None, &score, &ensemble),
        Err(ArrangeError::Pack(PackError::NoHome))
    ));
}
