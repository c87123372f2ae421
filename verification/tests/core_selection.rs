//! The leading voices take the notes that are worth the most.
use mmlfold::core_selection::{select as pick_notes, SelectError};
use mmlfold::Note;

/// Chooses notes by how likely they are to lead.
fn select(
    notes: &[Note],
    probabilities: &[f64],
    priority: &[bool],
    core: usize,
    total: usize,
) -> Result<Vec<bool>, SelectError> {
    let weights: Vec<i64> = notes
        .iter()
        .zip(probabilities)
        .map(|(note, &probability)| {
            (probability.clamp(0.0, 1.0) * note.duration() as f64 * 1024.0)
                .round()
                .clamp(0.0, 1_000_000_000_000.0) as i64
        })
        .collect();
    pick_notes(notes, &weights, priority, core, total)
}

fn note(on: i64, off: i64) -> Note {
    Note {
        on,
        off,
        pitch: 60,
        vel: 8,
        src: (0, 0),
    }
}
fn valid(notes: &[Note], selected: &[bool], core: usize, total: usize) -> bool {
    notes.iter().all(|at| {
        let mut counts = [0, 0];
        for (n, &chosen) in notes.iter().zip(selected) {
            if n.on <= at.on && at.on < n.off {
                counts[usize::from(chosen)] += 1;
            }
        }
        counts[1] <= core && counts[0] <= total - core
    })
}

#[test]
fn selection_matches_exhaustive_optimum_and_bounds_both_ensembles() {
    let mut seed = 13_u64;
    for _ in 0..50 {
        let mut notes = Vec::new();
        let mut probabilities = Vec::new();
        for _ in 0..8 {
            seed = seed.wrapping_mul(6364136223846793005).wrapping_add(1);
            let on = (seed >> 32) as i64 % 10 * 24;
            let off = on + (1 + (seed >> 48) as i64 % 5) * 24;
            notes.push(note(on, off));
            probabilities.push(((seed >> 40) % 8) as f64 / 8.0);
        }
        let total = notes
            .iter()
            .map(|at| {
                notes
                    .iter()
                    .filter(|n| n.on <= at.on && at.on < n.off)
                    .count()
            })
            .max()
            .unwrap();
        let core = 2.min(total);
        let selected = select(
            &notes,
            &probabilities,
            &vec![false; notes.len()],
            core,
            total,
        )
        .unwrap();
        assert!(valid(&notes, &selected, core, total));
        let value = |mask: &[bool]| {
            notes
                .iter()
                .zip(&probabilities)
                .zip(mask)
                .filter(|(_, chosen)| **chosen)
                .map(|((n, p), _)| n.duration() as f64 * p)
                .sum::<f64>()
        };
        let best = (0..1 << notes.len())
            .filter_map(|bits| {
                let mask: Vec<_> = (0..notes.len()).map(|i| bits & (1 << i) != 0).collect();
                valid(&notes, &mask, core, total).then_some(value(&mask))
            })
            .fold(0.0, f64::max);
        assert_eq!(value(&selected), best);

        let priority: Vec<_> = (0..notes.len()).map(|i| i % 3 == 0).collect();
        let selected = select(&notes, &probabilities, &priority, core, total).unwrap();
        let weighted_value = |mask: &[bool]| {
            (0..notes.len())
                .filter(|&i| mask[i])
                .map(|i| {
                    let base =
                        (notes[i].duration() as f64 * probabilities[i] * 1024.0).round() as i64;
                    let prior = if priority[i] {
                        (notes[i].duration() as f64 * 0.15 * 1024.0).round() as i64
                    } else {
                        0
                    };
                    base + prior
                })
                .sum::<i64>()
        };
        let best = (0..1 << notes.len())
            .filter_map(|bits| {
                let mask: Vec<_> = (0..notes.len()).map(|i| bits & (1 << i) != 0).collect();
                valid(&notes, &mask, core, total).then_some(weighted_value(&mask))
            })
            .max()
            .unwrap();
        assert_eq!(weighted_value(&selected), best);
    }
}

#[test]
fn learned_evidence_can_override_a_wrong_melody_prior() {
    let notes = [note(0, 192), note(0, 192)];
    assert_eq!(
        select(&notes, &[0.01, 0.99], &[true, false], 1, 2).unwrap(),
        [false, true]
    );
    assert_eq!(
        select(&notes, &[0.5, 0.6], &[true, false], 1, 2).unwrap(),
        [true, false]
    );
}

#[test]
fn incompatible_priority_notes_yield_to_capacity_without_cutting_intervals() {
    let notes = [note(0, 24), note(12, 60), note(36, 84), note(72, 96)];
    let selected = select(
        &notes,
        &[0.2, 0.9, 0.3, 0.8],
        &[true, false, false, true],
        1,
        2,
    )
    .unwrap();
    assert!(valid(&notes, &selected, 1, 2));
    assert_eq!(usize::from(selected[0]) + usize::from(selected[3]), 1);
    assert!(selected[3]);
}

#[test]
fn splitting_an_attack_does_not_change_its_core_priority() {
    let held = [note(0, 192), note(0, 192)];
    assert_eq!(
        select(&held, &[0.8, 0.2], &[false; 2], 1, 2).unwrap(),
        [true, false]
    );
    let mut repeated = vec![note(0, 192)];
    repeated.extend((0..16).map(|i| note(i * 12, (i + 1) * 12)));
    let mut probabilities = vec![0.2; repeated.len()];
    probabilities[0] = 0.8;
    assert_eq!(
        select(
            &repeated,
            &probabilities,
            &vec![false; repeated.len()],
            1,
            2
        )
        .unwrap(),
        std::iter::once(true)
            .chain(std::iter::repeat_n(false, 16))
            .collect::<Vec<_>>()
    );
}
