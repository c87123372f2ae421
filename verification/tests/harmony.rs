//! Pitches are read as chords.
use mmlfold::harmony::{analyze, Harmony};

fn mask(pitches: &[i32]) -> u16 {
    pitches
        .iter()
        .fold(0u16, |mask, pitch| mask | (1 << pitch.rem_euclid(12)))
}

/// The worth of a pitch as a share of one.
fn weight(harmony: &Harmony, pitch: i32) -> f64 {
    f64::from(harmony.weight(pitch)) / 100.0
}

/// What the classes of a mask are worth together.
fn coverage(harmony: &Harmony, mask: u16) -> f64 {
    let classes: Vec<bool> = (0..12).map(|class| mask & (1 << class) != 0).collect();
    f64::from(harmony.coverage(&classes)) / 100.0
}

#[test]
fn clear_chords_reward_characteristic_members() {
    let dominant = analyze(&[48, 52, 55, 58]).unwrap();
    assert_eq!(dominant.root(), 0);
    assert_eq!(dominant.mask(), mask(&[0, 4, 7, 10]));
    assert_eq!(weight(&dominant, 48), 0.65);
    assert_eq!(weight(&dominant, 52), 1.0);
    assert_eq!(weight(&dominant, 55), 0.25);
    assert_eq!(weight(&dominant, 58), 1.0);
    assert_eq!(weight(&dominant, 54), 0.0);
    let diminished = analyze(&[60, 63, 66]).unwrap();
    assert_eq!(weight(&diminished, 66), 1.0);
    assert_eq!(weight(&diminished, 67), 0.0);
    let major_seventh = analyze(&[60, 64, 67, 71]).unwrap();
    assert_eq!(weight(&major_seventh, 71), 1.0);
    let minor_major_seventh = analyze(&[60, 63, 67, 71]).unwrap();
    assert_eq!(weight(&minor_major_seventh, 63), 1.0);
    assert_eq!(weight(&minor_major_seventh, 71), 1.0);
}

#[test]
fn inversions_keep_the_root_independent_of_the_bass() {
    let reference = analyze(&[48, 52, 55, 58]).unwrap();
    for pitches in [[52, 55, 58, 60], [55, 58, 60, 64], [70, 64, 55, 60]] {
        let inverted = analyze(&pitches).unwrap();
        assert_eq!(inverted.root(), reference.root());
        assert_eq!(inverted.mask(), reference.mask());
        for pitch in 0..128 {
            assert_eq!(weight(&inverted, pitch), weight(&reference, pitch));
        }
    }
}

#[test]
fn transposition_preserves_roles_and_coverage() {
    let reference = analyze(&[48, 52, 55, 58]).unwrap();
    for shift in -12..=12 {
        let shifted = analyze(&[48, 52, 55, 58].map(|pitch| pitch + shift)).unwrap();
        assert_eq!(shifted.root(), shift.rem_euclid(12) as u8);
        for pitch in 36..84 {
            assert_eq!(weight(&shifted, pitch + shift), weight(&reference, pitch));
        }
        assert!((coverage(&shifted, shifted.mask()) - 2.9).abs() < 1e-12);
    }
}

#[test]
fn duplicated_octaves_do_not_add_coverage() {
    let harmony = analyze(&[48, 52, 55, 58, 60, 64, 67, 70]).unwrap();
    let selected = mask(&[48, 52]);
    assert_eq!(
        coverage(&harmony, selected),
        coverage(&harmony, mask(&[48, 52, 60, 64]))
    );
    assert_eq!(
        coverage(&harmony, selected | mask(&[72])) - coverage(&harmony, selected),
        0.0
    );
    assert!(
        (coverage(&harmony, selected | mask(&[58])) - coverage(&harmony, selected) - 1.0).abs()
            < 1e-12
    );
    assert_eq!(coverage(&harmony, mask(&[49, 54])), 0.0);
    assert_eq!(coverage(&harmony, u16::MAX), coverage(&harmony, harmony.mask()));
}

#[test]
fn ambiguous_chords_abstain_in_every_transposition() {
    for chord in [
        &[60, 64, 68][..],
        &[60, 63, 66, 69],
        &[60, 64, 67, 69],
        &[60, 63, 67, 69],
        &[60, 63, 67, 70],
        &[60, 63, 66, 70],
        &[60, 62, 67],
        &[60, 65, 67],
    ] {
        for shift in 0..12 {
            assert!(analyze(&chord.iter().map(|pitch| pitch + shift).collect::<Vec<_>>()).is_none());
        }
    }
}

#[test]
fn sparse_or_nonmatching_pitch_sets_abstain() {
    for pitches in [
        &[][..],
        &[60],
        &[60, 67, 72],
        &[60, 61, 62],
        &[60, 61, 64, 67],
        &[60, 64, 67, 70, 74],
    ] {
        assert!(analyze(pitches).is_none());
    }
}
