//! The upper voice is handed on together with a chord below it.
use mmlfold::attack_selection::{PlaceError, Schedule};
use mmlfold::attacks::{find_predecessor, Offer, Policy as Rules};
use mmlfold::chords::{chord_frame, chord_shape, chord_triples, ChordFrame};
use mmlfold::harmony::pitch_classes;
use mmlfold::mml::parse_part;
use mmlfold::writer::emit_part;
use mmlfold::{Note, Tempo, Tick};
use std::collections::BTreeMap;

/// How attacks are scheduled: the notes as they were, how likely each is to lead, and the
/// parts there are.
struct Policy<'a> {
    originals: &'a [Note],
    probabilities: &'a [f64],
    anchors: &'a [bool],
    parts: usize,
    count: usize,
    tempos: &'a [Tempo],
}

/// A number that orders as a float does.
fn key(value: f64) -> i64 {
    let bits = value.to_bits() as i64;
    bits ^ ((((bits >> 63) as u64) >> 1) as i64)
}

/// How much each triple of a wide chord is worth.
fn chord_values(
    s: &Schedule,
    batch: &[usize],
    entry: &[f64],
    policy: &Policy<'_>,
    frame: &ChordFrame,
    list: &[(usize, usize, usize)],
) -> Vec<i64> {
    let mut probabilities: Vec<f64> = batch.iter().map(|&i| policy.probabilities[i]).collect();
    probabilities.sort_by(|a, b| b.total_cmp(a));
    let separation = probabilities[..3].iter().sum::<f64>() / 3.0
        - probabilities[3..].iter().sum::<f64>() / (probabilities.len() - 3) as f64;
    let ambiguity = 1.0 - separation.clamp(0.0, 1.0);
    list.iter()
        .map(|&(a, b, c)| {
            let notes = [
                &s.notes[batch[a]],
                &s.notes[batch[b]],
                &s.notes[batch[c]],
            ];
            let shape = chord_shape(notes[0], notes[1], notes[2], frame);
            let bass = (-f64::from(shape.low - frame.bottom) / 12.0).exp()
                * (shape.bass_length as f64 / frame.upper_length as f64).min(1.0);
            let lead = (-f64::from(frame.top - shape.high) / 12.0).exp();
            let skeleton = f64::from(u8::from(shape.has_root)) + f64::from(u8::from(shape.has_fifth));
            let lead_octave = f64::from(u8::from(shape.lead_octave));
            let upper_support = if shape.inner_support {
                f64::from(shape.inner - frame.bottom) / f64::from(frame.top - frame.bottom)
            } else {
                0.0
            };
            let selected = pitch_classes(&[shape.low, shape.inner, shape.high]);
            let coverage: f64 = (0..12u8)
                .filter(|&c| selected[c as usize] && frame.harmony.has_class(c))
                .map(|c| f64::from(frame.harmony.weight(i32::from(c))) / 100.0)
                .sum();
            let familiar_voicing = if frame.plain_triad {
                0.10 * skeleton + 0.15 * lead_octave + 0.05 * upper_support
            } else {
                0.0
            };
            let value = (entry[batch[a]] + entry[batch[b]] + entry[batch[c]]) / 3.0
                + ambiguity
                    * (0.25 * bass + 0.10 * lead + familiar_voicing
                        - 0.15 * f64::from(shape.unisons)
                        + 0.04 * coverage / 3.0);
            key(value)
        })
        .collect()
}

/// Places attacks one moment after the other.
fn schedule(
    notes: &mut [Note],
    kept: &[usize],
    policy: &Policy<'_>,
) -> Result<Vec<Vec<usize>>, PlaceError> {
    let rules = Rules {
        originals: policy.originals,
        parts: policy.parts,
        count: policy.count,
        tempos: policy.tempos,
    };
    let mut s = Schedule::new(notes.to_vec(), policy.count);
    let mut entry = vec![0.0; notes.len()];
    let mut events: BTreeMap<Tick, Vec<usize>> = BTreeMap::new();
    for &i in kept {
        events.entry(s.notes[i].on).or_default().push(i);
    }
    for (tick, mut batch) in events {
        for &i in &batch {
            let affinity = find_predecessor(policy.originals, i).map_or(0.0, |j| {
                let gap = tick - policy.originals[j].off;
                if s.core[j] && (0..=96).contains(&gap) {
                    (-(gap as f64) / 96.0).exp()
                        * (-f64::from((s.notes[i].pitch - s.notes[j].pitch).abs()) / 12.0).exp()
                } else {
                    0.0
                }
            });
            entry[i] = policy.probabilities[i]
                + if policy.anchors[i] { 0.15 } else { 0.0 }
                + 0.08 * affinity;
        }
        batch.sort_by_key(|&i| (std::cmp::Reverse(key(entry[i])), i));
        let offers: Vec<Vec<Offer>> = batch
            .iter()
            .map(|&i| {
                s.slots
                    .iter()
                    .map(|history| match history.last() {
                        Some(&j) if s.notes[j].off > tick => {
                            let age = tick - s.notes[j].on;
                            let holding =
                                entry[j] * (0.10 + 0.90 * 2.0_f64.powf(-age as f64 / 48.0));
                            Offer {
                                outweighs: !(entry[i] <= holding + 0.02),
                                holding: key(holding),
                                strong: !(policy.probabilities[j] < 0.85
                                    || policy.probabilities[j] + 0.05 < policy.probabilities[i]),
                            }
                        }
                        _ => Offer {
                            outweighs: false,
                            holding: 0,
                            strong: false,
                        },
                    })
                    .collect()
            })
            .collect();
        let list = chord_triples(batch.len());
        let values = match chord_frame(
            &s.notes,
            &batch,
            &s.slots,
            policy.originals,
            tick,
            policy.parts,
        ) {
            Some(frame) => chord_values(&s, &batch, &entry, policy, &frame, &list),
            None => vec![0; list.len()],
        };
        s.place(&rules, tick, &batch, &offers, &list, &values)?;
    }
    s.finish(&rules)?;
    notes.copy_from_slice(&s.notes);
    Ok(s.slots)
}


struct Fixture {
    notes: Vec<Note>,
    originals: Vec<Note>,
    probabilities: Vec<f64>,
    anchors: Vec<bool>,
}
fn fixture(second: bool, transpose: i32, offset: Tick, descending: bool) -> Fixture {
    let (rows, probabilities) = if second {
        (
            vec![
                (0, 191, 42),
                (0, 191, 73),
                (71, 191, 76),
                (95, 191, 78),
                (95, 191, 58),
                (95, 191, 64),
            ],
            vec![0.969, 0.999, 0.971, 0.953, 0.001, 0.009],
        )
    } else {
        (
            vec![
                (0, 192, 47),
                (0, 192, 71),
                (72, 192, 74),
                (96, 192, 78),
                (96, 192, 54),
                (96, 192, 59),
                (96, 192, 62),
            ],
            vec![0.85, 0.985, 0.962, 0.916, 0.001, 0.004, 0.010],
        )
    };
    let mut originals: Vec<_> = rows
        .into_iter()
        .enumerate()
        .map(|(index, (on, off, pitch))| Note {
            on: on + offset,
            off: off + offset,
            pitch: pitch + transpose,
            vel: 8,
            src: (index, 0),
        })
        .collect();
    if descending {
        originals[1].pitch = 85 + transpose;
        originals[2].pitch = 82 + transpose;
        originals[3].pitch = 78 + transpose;
    }
    let mut notes = originals.clone();
    if !second {
        notes[1].off = offset + 96;
    }
    let mut anchors = vec![false; notes.len()];
    anchors[3] = true;
    Fixture {
        notes,
        originals,
        probabilities,
        anchors,
    }
}
fn run(fixture: &Fixture, tempos: &[Tempo]) -> (Vec<Note>, Vec<Vec<usize>>) {
    let mut notes = fixture.notes.clone();
    let kept: Vec<_> = (0..notes.len()).collect();
    let slots = schedule(
        &mut notes,
        &kept,
        &Policy {
            originals: &fixture.originals,
            probabilities: &fixture.probabilities,
            anchors: &fixture.anchors,
            parts: 3,
            count: 6,
            tempos,
        },
    )
    .unwrap();
    assert_eq!(slots.len(), 6);
    let mut assigned: Vec<_> = slots.iter().flatten().copied().collect();
    assigned.sort_unstable();
    assert_eq!(assigned, (0..notes.len()).collect::<Vec<_>>());
    for (index, note) in notes.iter().enumerate() {
        let original = &fixture.originals[index];
        assert_eq!(
            (note.on, note.pitch, note.vel, note.src),
            (original.on, original.pitch, original.vel, original.src)
        );
        assert!(note.off >= note.on + 6);
        assert!(note.off <= fixture.notes[index].off);
        assert!(note.off <= original.off);
    }
    for (slot, part) in slots.iter().enumerate() {
        assert!(
            part.windows(2)
                .all(|pair| notes[pair[0]].off <= notes[pair[1]].on)
        );
        let lane: Vec<_> = part.iter().map(|&index| notes[index].clone()).collect();
        let lane_tempos = if slot % 3 == 0 { tempos } else { &[] };
        let text = emit_part(&lane, lane_tempos, 768).unwrap();
        let (decoded, _, _) = parse_part(&text, (0, 0)).unwrap();
        let events = |notes: &[Note]| {
            notes
                .iter()
                .map(|note| (note.on, note.off, note.pitch, note.vel))
                .collect::<Vec<_>>()
        };
        assert_eq!(events(&decoded), events(&lane));
    }
    (notes, slots)
}
fn active_core(
    notes: &[Note],
    slots: &[Vec<usize>],
    tick: Tick,
) -> std::collections::BTreeSet<usize> {
    slots[..3]
        .iter()
        .flatten()
        .copied()
        .filter(|&index| notes[index].on <= tick && notes[index].off > tick)
        .collect()
}

#[test]
fn bass_to_chord_handoff_keeps_recent_upper_and_nearest_support_across_registers() {
    for second in [false, true] {
        for transpose in [-12, 0, 12] {
            for offset in [0, 384] {
                for descending in [false, true] {
                    let source = fixture(second, transpose, offset, descending);
                    let tick = source.notes[3].on;
                    let (notes, slots) = run(&source, &[(0, 120)]);
                    assert_eq!(
                        active_core(&notes, &slots, tick),
                        [2, 3, 4].into_iter().collect(),
                        "second={second}, transpose={transpose}, offset={offset}, descending={descending}"
                    );
                    assert_eq!(notes[0].off, tick);
                    assert_eq!(notes[1].off, tick);
                    assert_eq!(
                        notes[2], source.originals[2],
                        "Keep the recent upper intact"
                    );
                    for (note, original) in notes.iter().zip(&source.originals).skip(3) {
                        assert_eq!(note, original);
                    }
                    for index in 5..notes.len() {
                        assert!(slots[3..].iter().any(|part| part.contains(&index)));
                    }
                }
            }
        }
    }
}

#[derive(Clone, Copy, Debug)]
enum Guard {
    ShortSupport,
    WeakSupport,
    UnisonSupport,
    SamePitchUpper,
    SimultaneousUpper,
    DifferentBassStart,
    InsufficientRegisterGap,
    YoungHeldAttacks,
}

#[test]
fn handoff_prior_does_not_override_short_weak_or_non_arpeggiated_entries() {
    for guard in [
        Guard::ShortSupport,
        Guard::WeakSupport,
        Guard::UnisonSupport,
        Guard::SamePitchUpper,
        Guard::SimultaneousUpper,
        Guard::DifferentBassStart,
        Guard::InsufficientRegisterGap,
        Guard::YoungHeldAttacks,
    ] {
        let mut source = fixture(true, 0, 0, false);
        for notes in [&mut source.notes, &mut source.originals] {
            match guard {
                Guard::ShortSupport => {
                    notes[4].off = notes[4].on + 48;
                    notes[5].off = notes[5].on + 48;
                }
                Guard::WeakSupport => {
                    notes[4].vel = 3;
                    notes[5].vel = 3;
                }
                Guard::UnisonSupport => notes[5].pitch = notes[4].pitch,
                Guard::SamePitchUpper => {
                    notes[1].pitch = 79;
                    notes[2].pitch = 79;
                    notes[3].pitch = 82;
                }
                Guard::SimultaneousUpper => notes[2].on = 0,
                Guard::DifferentBassStart => notes[1].on = 6,
                Guard::InsufficientRegisterGap => notes[5].pitch = 65,
                Guard::YoungHeldAttacks => {
                    notes[0].on = 72;
                    notes[1].on = 72;
                    notes[2].on = 83;
                }
            }
        }
        let (notes, slots) = run(&source, &[]);
        assert!(
            !active_core(&notes, &slots, source.notes[3].on).contains(&4),
            "Guard {guard:?} must not force the low-confidence support into the core"
        );
        if matches!(guard, Guard::YoungHeldAttacks) {
            assert_eq!(
                active_core(&notes, &slots, 95),
                [0, 1, 2].into_iter().collect()
            );
            assert_eq!(&notes[..3], &source.originals[..3]);
        }
    }
}

#[test]
fn handoff_prior_preserves_exact_tempo_carrier_feasibility() {
    let source = fixture(true, 0, 0, false);
    let (notes, slots) = run(&source, &[(0, 120), (96, 144)]);
    assert!(!active_core(&notes, &slots, 95).contains(&4));
    assert_eq!(notes[1], source.originals[1]);
    assert_eq!(notes[3].on, 95);
    assert_eq!(notes[4].on, 95);
}
fn repeated_fixture(
    transpose: i32,
    offset: Tick,
    ascending: bool,
    recent_still_held: bool,
) -> Fixture {
    let mut source = fixture(false, transpose, offset, false);
    let first_pitch = if ascending { 73 } else { 79 };
    let rows = [
        (0, 191, 42),
        (0, 191, first_pitch),
        (71, 191, 76),
        (95, 191, 76),
        (95, 191, 54),
        (95, 191, 58),
        (95, 191, 64),
    ];
    for (note, (on, off, pitch)) in source.originals.iter_mut().zip(rows) {
        note.on = on + offset;
        note.off = off + offset;
        note.pitch = pitch + transpose;
    }
    source.notes = source.originals.clone();
    source.notes[1].off = offset + 143;
    if !recent_still_held {
        source.notes[2].off = offset + 95;
    }
    source.probabilities = vec![
        0.984737, 0.998199, 0.936508, 0.517192, 0.001131, 0.000452, 0.009554,
    ];
    source
}

#[test]
fn repeated_upper_handoff_preserves_first_upper_and_separate_attacks() {
    for transpose in [-12, 0, 12] {
        for offset in [0, 384] {
            for ascending in [false, true] {
                for recent_still_held in [false, true] {
                    let source = repeated_fixture(transpose, offset, ascending, recent_still_held);
                    let tick = source.notes[3].on;
                    let (notes, slots) = run(&source, &[(0, 120)]);
                    assert_eq!(
                        active_core(&notes, &slots, tick),
                        [1, 3, 4].into_iter().collect(),
                        "transpose={transpose}, offset={offset}, ascending={ascending}, recent_still_held={recent_still_held}"
                    );
                    assert_eq!(notes[0].off, tick);
                    assert_eq!(
                        notes[1], source.notes[1],
                        "Keep the existing first-upper tail"
                    );
                    assert_eq!(source.originals[1].off, offset + 191);
                    assert_eq!(notes[1].off, offset + 143);
                    assert_eq!(notes[2].on, offset + 71);
                    assert_eq!(notes[2].off, tick);
                    for (note, original) in notes.iter().zip(&source.originals).skip(3) {
                        assert_eq!(note, original);
                    }
                    for index in [5, 6] {
                        assert!(slots[3..].iter().any(|part| part.contains(&index)));
                    }
                    if !recent_still_held {
                        assert!(slots[..3].iter().any(|part| {
                            part.windows(2).any(|pair| pair[0] == 2 && pair[1] == 3)
                        }));
                    }
                }
            }
        }
    }
}

#[test]
fn repeated_handoff_uses_fresh_duration_for_lower_support() {
    for (fresh_duration, support_duration, expected_handoff) in [
        (48, 48, true),
        (48, 24, false),
        (96, 96, true),
        (96, 48, false),
    ] {
        let mut source = repeated_fixture(0, 0, false, false);
        for notes in [&mut source.notes, &mut source.originals] {
            notes[3].off = notes[3].on + fresh_duration;
            for support in &mut notes[4..] {
                support.off = support.on + support_duration;
            }
        }
        assert_eq!(source.notes[2].off, source.notes[3].on);
        let (notes, slots) = run(&source, &[]);
        assert_eq!(
            active_core(&notes, &slots, 95).contains(&4),
            expected_handoff,
            "fresh={fresh_duration}, support={support_duration}"
        );
        assert_eq!(notes[1], source.notes[1]);
        if expected_handoff {
            assert_eq!(
                active_core(&notes, &slots, 95),
                [1, 3, 4].into_iter().collect()
            );
        }
    }
}

#[derive(Clone, Copy, Debug)]
enum RepeatedGuard {
    FirstAlreadyEnded,
    DirectionReversal,
    RecentYoungerThanTwentyFourTicks,
}

#[test]
fn repeated_handoff_does_not_revive_ended_upper_reverse_direction_or_cut_young_attack() {
    for guard in [
        RepeatedGuard::FirstAlreadyEnded,
        RepeatedGuard::DirectionReversal,
        RepeatedGuard::RecentYoungerThanTwentyFourTicks,
    ] {
        let mut source = repeated_fixture(0, 0, false, true);
        match guard {
            RepeatedGuard::FirstAlreadyEnded => {
                source.notes[1].off = 95;
                source.notes[2].off = 95;
            }
            RepeatedGuard::DirectionReversal => {
                source.notes[3].pitch = 78;
                source.originals[3].pitch = 78;
            }
            RepeatedGuard::RecentYoungerThanTwentyFourTicks => {
                source.notes[2].on = 77;
                source.originals[2].on = 77;
            }
        }
        let (notes, slots) = run(&source, &[]);
        assert!(
            !active_core(&notes, &slots, 95).contains(&4),
            "Guard {guard:?} must not force the lower support into the core"
        );
        assert_eq!(notes[1], source.notes[1]);
        if matches!(guard, RepeatedGuard::FirstAlreadyEnded) {
            assert!(!active_core(&notes, &slots, 95).contains(&1));
        } else {
            assert_eq!(notes[2], source.notes[2]);
        }
    }
}
