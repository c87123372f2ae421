//! Attacks are placed in parts without being moved.
use mmlfold::attack_selection::{PlaceError, Schedule};
use mmlfold::attacks::{find_predecessor, Offer, Policy as Rules};
use mmlfold::chords::{chord_frame, chord_shape, chord_triples, ChordFrame};
use mmlfold::harmony::pitch_classes;
use mmlfold::matching::fits;
use mmlfold::{Note, Tempo, Tick};
use std::collections::BTreeMap;

/// How attacks are scheduled: the notes as they were, how likely each is to lead, and the
/// parts there are.
struct Policy<'a> {
    originals: &'a [Note],
    probabilities: &'a [f64],
    anchors: &'a [bool],
    parts: usize,
    count: usize,
    tempos: &'a [Tempo],
}

/// A number that orders as a float does.
fn key(value: f64) -> i64 {
    let bits = value.to_bits() as i64;
    bits ^ ((((bits >> 63) as u64) >> 1) as i64)
}

/// How much each triple of a wide chord is worth.
fn chord_values(
    s: &Schedule,
    batch: &[usize],
    entry: &[f64],
    policy: &Policy<'_>,
    frame: &ChordFrame,
    list: &[(usize, usize, usize)],
) -> Vec<i64> {
    let mut probabilities: Vec<f64> = batch.iter().map(|&i| policy.probabilities[i]).collect();
    probabilities.sort_by(|a, b| b.total_cmp(a));
    let separation = probabilities[..3].iter().sum::<f64>() / 3.0
        - probabilities[3..].iter().sum::<f64>() / (probabilities.len() - 3) as f64;
    let ambiguity = 1.0 - separation.clamp(0.0, 1.0);
    list.iter()
        .map(|&(a, b, c)| {
            let notes = [
                &s.notes[batch[a]],
                &s.notes[batch[b]],
                &s.notes[batch[c]],
            ];
            let shape = chord_shape(notes[0], notes[1], notes[2], frame);
            let bass = (-f64::from(shape.low - frame.bottom) / 12.0).exp()
                * (shape.bass_length as f64 / frame.upper_length as f64).min(1.0);
            let lead = (-f64::from(frame.top - shape.high) / 12.0).exp();
            let skeleton = f64::from(u8::from(shape.has_root)) + f64::from(u8::from(shape.has_fifth));
            let lead_octave = f64::from(u8::from(shape.lead_octave));
            let upper_support = if shape.inner_support {
                f64::from(shape.inner - frame.bottom) / f64::from(frame.top - frame.bottom)
            } else {
                0.0
            };
            let selected = pitch_classes(&[shape.low, shape.inner, shape.high]);
            let coverage: f64 = (0..12u8)
                .filter(|&c| selected[c as usize] && frame.harmony.has_class(c))
                .map(|c| f64::from(frame.harmony.weight(i32::from(c))) / 100.0)
                .sum();
            let familiar_voicing = if frame.plain_triad {
                0.10 * skeleton + 0.15 * lead_octave + 0.05 * upper_support
            } else {
                0.0
            };
            let value = (entry[batch[a]] + entry[batch[b]] + entry[batch[c]]) / 3.0
                + ambiguity
                    * (0.25 * bass + 0.10 * lead + familiar_voicing
                        - 0.15 * f64::from(shape.unisons)
                        + 0.04 * coverage / 3.0);
            key(value)
        })
        .collect()
}

/// Places attacks one moment after the other.
fn schedule(
    notes: &mut [Note],
    kept: &[usize],
    policy: &Policy<'_>,
) -> Result<Vec<Vec<usize>>, PlaceError> {
    let rules = Rules {
        originals: policy.originals,
        parts: policy.parts,
        count: policy.count,
        tempos: policy.tempos,
    };
    let mut s = Schedule::new(notes.to_vec(), policy.count);
    let mut entry = vec![0.0; notes.len()];
    let mut events: BTreeMap<Tick, Vec<usize>> = BTreeMap::new();
    for &i in kept {
        events.entry(s.notes[i].on).or_default().push(i);
    }
    for (tick, mut batch) in events {
        for &i in &batch {
            let affinity = find_predecessor(policy.originals, i).map_or(0.0, |j| {
                let gap = tick - policy.originals[j].off;
                if s.core[j] && (0..=96).contains(&gap) {
                    (-(gap as f64) / 96.0).exp()
                        * (-f64::from((s.notes[i].pitch - s.notes[j].pitch).abs()) / 12.0).exp()
                } else {
                    0.0
                }
            });
            entry[i] = policy.probabilities[i]
                + if policy.anchors[i] { 0.15 } else { 0.0 }
                + 0.08 * affinity;
        }
        batch.sort_by_key(|&i| (std::cmp::Reverse(key(entry[i])), i));
        let offers: Vec<Vec<Offer>> = batch
            .iter()
            .map(|&i| {
                s.slots
                    .iter()
                    .map(|history| match history.last() {
                        Some(&j) if s.notes[j].off > tick => {
                            let age = tick - s.notes[j].on;
                            let holding =
                                entry[j] * (0.10 + 0.90 * 2.0_f64.powf(-age as f64 / 48.0));
                            Offer {
                                outweighs: !(entry[i] <= holding + 0.02),
                                holding: key(holding),
                                strong: !(policy.probabilities[j] < 0.85
                                    || policy.probabilities[j] + 0.05 < policy.probabilities[i]),
                            }
                        }
                        _ => Offer {
                            outweighs: false,
                            holding: 0,
                            strong: false,
                        },
                    })
                    .collect()
            })
            .collect();
        let list = chord_triples(batch.len());
        let values = match chord_frame(
            &s.notes,
            &batch,
            &s.slots,
            policy.originals,
            tick,
            policy.parts,
        ) {
            Some(frame) => chord_values(&s, &batch, &entry, policy, &frame, &list),
            None => vec![0; list.len()],
        };
        s.place(&rules, tick, &batch, &offers, &list, &values)?;
    }
    s.finish(&rules)?;
    notes.copy_from_slice(&s.notes);
    Ok(s.slots)
}

fn run(
    notes: &mut [Note],
    scores: &[f64],
    parts: usize,
    count: usize,
    tempos: &[Tempo],
) -> Vec<Vec<usize>> {
    let originals = notes.to_vec();
    schedule(
        notes,
        &(0..notes.len()).collect::<Vec<_>>(),
        &Policy {
            originals: &originals,
            probabilities: scores,
            anchors: &vec![false; notes.len()],
            parts,
            count,
            tempos,
        },
    )
    .unwrap()
}
fn n(on: Tick, off: Tick, pitch: i32) -> Note {
    Note {
        on,
        off,
        pitch,
        vel: 8,
        src: (pitch as usize, 0),
    }
}

#[test]
fn long_tail_yields_once_without_restarting() {
    let mut notes = vec![n(0, 384, 43), n(96, 144, 72), n(144, 192, 74)];
    let slots = run(&mut notes, &[0.9, 0.7, 0.7], 1, 2, &[]);
    assert_eq!(slots, vec![vec![0, 1, 2], vec![]]);
    assert_eq!(notes[0].off, 96);
    assert_eq!(notes[1].on, 96);
}

#[test]
fn free_parts_and_uncontested_tails_are_not_cut() {
    let mut notes = vec![n(0, 384, 43), n(96, 144, 72)];
    let before = notes.clone();
    let slots = run(&mut notes, &[0.9, 0.7], 2, 3, &[]);
    assert_eq!(notes, before);
    assert_eq!(slots[0], vec![0]);
    assert_eq!(slots[1], vec![1]);
}

#[test]
fn even_a_low_scoring_attack_can_use_a_one_beat_old_tail() {
    let mut notes = vec![n(0, 576, 43), n(96, 186, 63), n(192, 282, 61)];
    let slots = run(&mut notes, &[0.99, 0.0, 0.0], 1, 2, &[]);
    assert_eq!(slots, vec![vec![0, 1, 2], vec![]]);
    assert_eq!(notes[0].off, 96);
}

#[test]
fn eighth_note_tail_yields_without_cutting_a_younger_voice() {
    for transpose in -12..=12 {
        let mut notes = vec![
            n(0, 12, 74 + transpose),
            n(0, 48, 50 + transpose),
            n(6, 48, 55 + transpose),
            n(18, 24, 57 + transpose),
            n(24, 36, 74 + transpose),
            n(24, 144, 62 + transpose),
        ];
        let mut expected = notes.clone();
        expected[1].off = 24;
        let slots = run(
            &mut notes,
            &[0.98, 0.346, 0.481, 0.8, 0.984, 0.540],
            3,
            6,
            &[(0, 120), (24, 144)],
        );
        assert_eq!(notes, expected);
        assert!(slots[..3].iter().any(|part| part.contains(&4)));
        assert!(slots[..3].iter().any(|part| part.contains(&5)));
        for part in &slots {
            assert!(
                part.windows(2)
                    .all(|pair| notes[pair[0]].off <= notes[pair[1]].on)
            );
        }
        let mut all: Vec<_> = slots.into_iter().flatten().collect();
        all.sort_unstable();
        assert_eq!(all, (0..notes.len()).collect::<Vec<_>>());
    }
}

#[test]
fn young_and_stronger_touches_are_protected() {
    for (off, onset, score) in [
        (24, 12, 0.9),
        (48, 23, 0.9),
        (48, 24, 0.1),
        (192, 12, 0.9),
        (192, 24, 0.1),
    ] {
        let mut notes = vec![n(0, off, 43), n(onset, onset + 24, 72)];
        let slots = run(&mut notes, &[0.9, score], 1, 2, &[]);
        assert_eq!(notes[0].off, off);
        assert_eq!(slots, vec![vec![0], vec![1]]);
    }
}

#[test]
fn tempo_fragment_cannot_be_created_by_cutting() {
    let mut notes = vec![n(0, 192, 43), n(36, 84, 60), n(49, 97, 72)];
    let slots = run(&mut notes, &[0.9, 0.9, 0.9], 2, 4, &[(0, 120), (48, 144)]);
    assert_eq!(notes[0].off, 192);
    assert_eq!(slots, vec![vec![0], vec![1], vec![], vec![2]]);
}

#[test]
fn simultaneous_unisons_are_each_placed_once() {
    let mut notes = vec![n(0, 384, 43), n(96, 144, 72), n(96, 144, 72)];
    let slots = run(&mut notes, &[0.9, 0.7, 0.7], 1, 3, &[]);
    assert_eq!(slots, vec![vec![0, 1], vec![2], vec![]]);
    assert_eq!(notes[0].off, 96);
}

#[test]
fn dropped_source_note_breaks_core_affinity() {
    let originals = vec![n(0, 24, 60), n(24, 48, 60), n(48, 96, 60), n(24, 192, 40)];
    let mut notes = originals.clone();
    notes[1].off = notes[1].on;
    let slots = schedule(
        &mut notes,
        &[0, 2, 3],
        &Policy {
            originals: &originals,
            probabilities: &[0.9, 0.9, 0.64, 0.9],
            anchors: &[false; 4],
            parts: 1,
            count: 2,
            tempos: &[],
        },
    )
    .unwrap();
    assert_eq!(slots, vec![vec![0, 3], vec![2]]);
    assert_eq!(notes[3].off, 192);
}

#[test]
fn batch_matching_reserves_the_only_exact_part() {
    let edges = vec![vec![0, 1], vec![0]];
    assert!(fits(&edges, 0, &vec![false, false]));
    assert!(!fits(&edges, 1, &vec![true, false]));
    assert!(fits(&edges, 1, &vec![false, true]));
}

#[test]
fn wide_block_chords_keep_melody_bass_and_root_across_transpositions() {
    for transpose in -12..=12 {
        for (pitches, probabilities, wanted) in [
            (
                [89, 82, 77, 41, 38, 34],
                [0.8004, 0.3013, 0.0596, 0.0054, 0.0039, 0.0201],
                [89, 77, 34],
            ),
            (
                [90, 86, 83, 62, 59, 54],
                [0.2233, 0.0811, 0.0142, 0.0070, 0.0194, 0.0146],
                [90, 83, 54],
            ),
        ] {
            let mut notes: Vec<_> = pitches.iter().map(|&p| n(0, 48, p + transpose)).collect();
            let original = notes.clone();
            let slots = run(&mut notes, &probabilities, 3, 6, &[]);
            let selected: std::collections::BTreeSet<_> = slots[..3]
                .iter()
                .flatten()
                .map(|&i| notes[i].pitch)
                .collect();
            assert_eq!(
                selected,
                wanted.into_iter().map(|p| p + transpose).collect()
            );
            assert_eq!(notes, original);
            let mut all: Vec<_> = slots.into_iter().flatten().collect();
            all.sort_unstable();
            assert_eq!(all, (0..6).collect::<Vec<_>>());
        }
    }
}

#[test]
fn block_chord_prior_does_not_override_clear_model_evidence() {
    let mut notes: Vec<_> = [90, 86, 83, 62, 59, 54]
        .iter()
        .map(|&p| n(0, 48, p))
        .collect();
    let slots = run(&mut notes, &[0.99, 0.98, 0.01, 0.01, 0.97, 0.01], 3, 6, &[]);
    let selected: std::collections::BTreeSet<_> =
        slots[..3].iter().flatten().copied().collect();
    assert_eq!(selected, [0, 1, 4].into_iter().collect());
}

#[test]
fn unequal_releases_do_not_bypass_chord_selection_or_change_durations() {
    for lengths in [
        [96, 48, 48, 48, 48, 48],
        [336, 276, 276, 564, 564, 564],
        [48, 96, 144, 192, 240, 288],
    ] {
        let mut notes: Vec<_> = [90, 86, 83, 62, 59, 54]
            .iter()
            .zip(lengths)
            .map(|(&p, duration)| n(0, duration, p))
            .collect();
        let original = notes.clone();
        let slots = run(
            &mut notes,
            &[0.2233, 0.0811, 0.0142, 0.0070, 0.0194, 0.0146],
            3,
            6,
            &[],
        );
        let selected: std::collections::BTreeSet<_> =
            slots[..3].iter().flatten().copied().collect();
        assert_eq!(selected, [0, 2, 5].into_iter().collect());
        assert_eq!(notes, original);
    }
}

#[test]
fn shorter_upper_voices_keep_the_chord_root_and_sustained_bass() {
    for transpose in -12..=12 {
        let mut notes: Vec<_> = [90, 86, 83, 62, 59, 54]
            .into_iter()
            .zip([336, 276, 276, 564, 564, 564])
            .map(|(pitch, length)| n(0, length, pitch + transpose))
            .collect();
        let original = notes.clone();
        let slots = run(
            &mut notes,
            &[
                0.431460352,
                0.232719623,
                0.035885277,
                0.008902867,
                0.018615248,
                0.013478345,
            ],
            3,
            6,
            &[(0, 120), (96, 144)],
        );
        let selected: std::collections::BTreeSet<_> =
            slots[..3].iter().flatten().copied().collect();
        assert_eq!(selected, [0, 2, 5].into_iter().collect());
        assert_eq!(notes, original);
        let mut all: Vec<_> = slots.into_iter().flatten().collect();
        all.sort_unstable();
        assert_eq!(all, (0..6).collect::<Vec<_>>());
    }
}

#[test]
fn short_bass_attacks_do_not_displace_stronger_sustained_upper_voices() {
    let mut notes: Vec<_> = [90, 86, 83, 62, 59, 54]
        .into_iter()
        .zip([336, 276, 276, 6, 6, 6])
        .map(|(pitch, length)| n(0, length, pitch))
        .collect();
    let slots = run(
        &mut notes,
        &[
            0.431460352,
            0.232719623,
            0.035885277,
            0.008902867,
            0.018615248,
            0.013478345,
        ],
        3,
        6,
        &[],
    );
    let selected: std::collections::BTreeSet<_> =
        slots[..3].iter().flatten().copied().collect();
    assert_eq!(selected, [0, 1, 2].into_iter().collect());
}

#[test]
fn unison_copies_do_not_crowd_out_the_upper_duration_reference() {
    let mut notes: Vec<_> = [90, 90, 90, 86, 83, 54]
        .into_iter()
        .zip([48, 384, 384, 48, 48, 48])
        .map(|(pitch, length)| n(0, length, pitch))
        .collect();
    let original = notes.clone();
    let slots = run(
        &mut notes,
        &[0.431, 0.431, 0.431, 0.233, 0.036, 0.013],
        3,
        6,
        &[],
    );
    let selected: std::collections::BTreeSet<_> = slots[..3]
        .iter()
        .flatten()
        .map(|&i| notes[i].pitch)
        .collect();
    assert_eq!(selected, [90, 83, 54].into_iter().collect());
    assert_eq!(notes, original);
    let mut all: Vec<_> = slots.into_iter().flatten().collect();
    all.sort_unstable();
    assert_eq!(all, (0..6).collect::<Vec<_>>());
}

#[test]
fn exact_unisons_do_not_take_two_core_parts_when_distinct_tones_fit() {
    let mut notes: Vec<_> = [36, 60, 72, 76, 79, 79]
        .iter()
        .map(|&p| n(0, 48, p))
        .collect();
    let slots = run(&mut notes, &[0.4; 6], 3, 6, &[]);
    let selected: std::collections::BTreeSet<_> = slots[..3]
        .iter()
        .flatten()
        .map(|&i| notes[i].pitch)
        .collect();
    assert_eq!(selected.len(), 3);
    assert!(selected.contains(&36) && selected.contains(&79));
    assert_eq!(slots.iter().flatten().count(), 6);
}

#[test]
fn cutting_cannot_strand_a_tempo_after_the_last_note() {
    let originals = vec![
        n(0, 192, 43),
        n(0, 192, 48),
        n(0, 192, 55),
        n(96, 120, 72),
        n(96, 120, 76),
        n(96, 120, 79),
    ];
    let mut notes = originals.clone();
    let result = schedule(
        &mut notes,
        &[0, 1, 2, 3, 4, 5],
        &Policy {
            originals: &originals,
            probabilities: &[0.9; 6],
            anchors: &[false; 6],
            parts: 3,
            count: 6,
            tempos: &[(0, 120), (123, 140)],
        },
    );
    assert!(
        matches!(result, Err(PlaceError::Unwritable { .. }))
    );
}

#[test]
fn interleaved_accompaniment_preserves_the_ongoing_source_melody() {
    for transpose in [-24, 0, 12] {
        let rows = [
            (0, 48, 96, 0),
            (0, 48, 84, 1),
            (0, 30, 48, 2),
            (0, 30, 36, 3),
            (30, 66, 60, 2),
            (30, 66, 55, 3),
            (48, 96, 91, 0),
            (48, 96, 79, 1),
            (66, 96, 64, 2),
            (66, 96, 60, 3),
        ];
        let mut notes: Vec<_> = rows
            .map(|(on, off, pitch, source)| Note {
                src: (source, 0),
                ..n(on, off, pitch + transpose)
            })
            .into();
        let original = notes.clone();
        let slots = run(
            &mut notes,
            &[
                0.995, 0.949, 0.897, 0.392, 0.99, 0.97, 0.998, 0.938, 0.99, 0.97,
            ],
            3,
            6,
            &[],
        );
        for index in [0, 1, 6, 7] {
            assert_eq!(notes[index], original[index]);
            assert!(slots[..3].iter().any(|part| part.contains(&index)));
        }
        assert!(
            slots[..3]
                .iter()
                .any(|part| part.contains(&0) && part.contains(&6))
        );
        assert!(
            slots[..3]
                .iter()
                .any(|part| part.contains(&1) && part.contains(&7))
        );
        assert_eq!(slots.iter().flatten().count(), notes.len());
    }
}

#[test]
fn sustained_source_melody_outlasts_multiple_lower_attacks() {
    let rows = [
        (0, 24, 77, 0),
        (0, 24, 65, 1),
        (48, 240, 89, 0),
        (48, 240, 77, 1),
        (48, 78, 60, 2),
        (48, 78, 56, 3),
        (78, 114, 60, 2),
        (78, 114, 55, 3),
        (114, 144, 56, 2),
        (114, 144, 51, 3),
        (144, 162, 39, 2),
        (144, 162, 27, 3),
        (240, 288, 87, 0),
        (240, 288, 75, 1),
    ];
    let mut notes: Vec<_> = rows
        .map(|(on, off, pitch, source)| Note {
            src: (source, 0),
            ..n(on, off, pitch)
        })
        .into();
    let original = notes.clone();
    let slots = run(
        &mut notes,
        &[
            0.99, 0.97, 0.998, 0.97, 0.95, 0.90, 0.998, 0.90, 0.998, 0.92, 0.97, 0.85, 0.99,
            0.97,
        ],
        3,
        6,
        &[],
    );
    for index in [2, 3] {
        assert_eq!(notes[index], original[index]);
        assert!(slots[..3].iter().any(|part| part.contains(&index)));
    }
    assert_eq!(slots.iter().flatten().count(), notes.len());
}

#[test]
fn isolated_or_weaker_high_notes_can_still_yield() {
    for (has_neighbor, held_score, new_score) in
        [(false, 0.98, 0.95), (true, 0.50, 0.80), (true, 0.85, 0.98)]
    {
        let mut notes = vec![n(0, 192, 84), n(30, 78, 60)];
        let mut probabilities = vec![held_score, new_score];
        if has_neighbor {
            let mut neighbor = n(192, 240, 86);
            neighbor.src = notes[0].src;
            notes.push(neighbor);
            probabilities.push(held_score);
        }
        let slots = run(&mut notes, &probabilities, 1, 2, &[]);
        assert_eq!(notes[0].off, 30);
        assert!(slots[0].contains(&1));
    }
}

#[test]
fn source_lead_preference_does_not_make_attack_placement_infeasible() {
    let mut notes = vec![n(0, 192, 84), n(0, 192, 40), n(30, 78, 60), n(192, 240, 86)];
    notes[3].src = notes[0].src;
    let slots = run(&mut notes, &[0.98, 0.90, 0.95, 0.98], 1, 2, &[]);
    assert_eq!(notes[0].off, 30);
    assert!(slots[0].contains(&2));
    assert_eq!(slots.iter().flatten().count(), notes.len());
}

#[test]
fn clear_seventh_chord_coverage_prefers_an_unrepresented_member() {
    for transpose in [-12, 0, 12] {
        let mut notes: Vec<_> = [36, 48, 52, 55, 58, 64]
            .into_iter()
            .map(|pitch| n(0, 96, pitch + transpose))
            .collect();
        let original = notes.clone();
        let slots = run(&mut notes, &[0.4; 6], 3, 6, &[]);
        let selected: std::collections::BTreeSet<_> = slots[..3]
            .iter()
            .flatten()
            .map(|&index| notes[index].pitch - transpose)
            .collect();
        assert_eq!(selected, [36, 58, 64].into_iter().collect());
        assert_eq!(notes, original);
        assert_eq!(slots.iter().flatten().count(), notes.len());
    }
}

#[test]
fn removed_nonchord_tones_remain_in_the_original_harmonic_context() {
    for transpose in [-12, 0, 12] {
        for (on, off, active) in [(0, 192, true), (96, 192, true), (0, 96, false)] {
            let mut originals: Vec<_> = [12, 36, 52, 55, 59, 88]
                .into_iter()
                .map(|pitch| n(96, 192, pitch + transpose))
                .collect();
            originals.push(n(on, off, 63 + transpose));
            let mut notes = originals.clone();
            notes[6].off = notes[6].on;
            let before = notes.clone();
            let slots = schedule(
                &mut notes,
                &[0, 1, 2, 3, 4, 5],
                &Policy {
                    originals: &originals,
                    probabilities: &[0.4; 7],
                    anchors: &[false; 7],
                    parts: 3,
                    count: 6,
                    tempos: &[],
                },
            )
            .unwrap();
            let selected: std::collections::BTreeSet<_> = slots[..3]
                .iter()
                .flatten()
                .map(|&i| notes[i].pitch - transpose)
                .collect();
            let expected = if active { [12, 36, 52] } else { [12, 59, 88] };
            assert_eq!(selected, expected.into_iter().collect());
            assert_eq!(notes, before);
            let mut assigned: Vec<_> = slots.into_iter().flatten().collect();
            assigned.sort_unstable();
            assert_eq!(assigned, [0, 1, 2, 3, 4, 5]);
        }
    }
}
