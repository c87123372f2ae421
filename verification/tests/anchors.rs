//! The melody is found where accompaniment begins beside it.
use mmlfold::fold::analyze;
use mmlfold::homes::{attack_anchors, continuity};
use mmlfold::{Note, Score, Tick, Track};

const LEAD_PITCH: f64 = 0.6;
const LEAD_CONTINUITY: f64 = 0.7;

/// A number that orders as a float does.
fn key(value: f64) -> i64 {
    let bits = value.to_bits() as i64;
    bits ^ ((((bits >> 63) as u64) >> 1) as i64)
}

fn source(voices: &[&[(Tick, Tick, i32)]]) -> Score {
    Score {
        tracks: voices
            .iter()
            .enumerate()
            .map(|(track, voice)| Track {
                parts: vec![
                    voice
                        .iter()
                        .map(|&(on, off, pitch)| Note {
                            on,
                            off,
                            pitch,
                            vel: 12,
                            src: (track, 0),
                        })
                        .collect(),
                ],
                ..Track::default()
            })
            .collect(),
        ..Score::default()
    }
}
fn anchors(score: &Score) -> Vec<(Tick, i32)> {
    let notes = analyze(score).unwrap();
    let originals: Vec<_> = notes.iter().map(|n| n.note).collect();
    let kept: Vec<_> = (0..notes.len()).collect();
    let keys: Vec<_> = notes
        .iter()
        .enumerate()
        .map(|(i, n)| {
            key(3.0 * f64::from(n.original_velocity)
                + 40.0 * f64::from(n.onset_activity) / 2.0
                + LEAD_PITCH * f64::from(n.note.pitch)
                - LEAD_CONTINUITY * continuity(&originals, i) as f64)
        })
        .collect();
    let selected = attack_anchors(&originals, &kept, &keys);
    let mut result: Vec<_> = notes
        .iter()
        .zip(selected)
        .filter(|(_, selected)| *selected)
        .map(|(n, _)| (n.note.on, n.note.pitch))
        .collect();
    result.sort_unstable();
    result
}

#[test]
fn staggered_accompaniment_does_not_pull_the_anchor_down_an_octave() {
    let melody = &[(0, 48, 96), (48, 96, 91), (96, 144, 88)][..];
    let octave = &[(0, 48, 84), (48, 96, 79), (96, 144, 76)][..];
    let accompaniment = &[(30, 48, 60), (78, 96, 58)][..];
    for shift in -12..=12 {
        let mut score = source(&[melody, octave, accompaniment]);
        for track in &mut score.tracks {
            for n in &mut track.parts[0] {
                n.pitch += shift;
            }
        }
        let selected = anchors(&score);
        for (on, pitch) in [(0, 96), (48, 91), (96, 88)] {
            assert!(
                selected.contains(&(on, pitch + shift)),
                "shift={shift}: {selected:?}"
            );
        }
    }
}

#[test]
fn new_source_and_new_phrase_can_take_the_melody() {
    let mut score = source(&[
        &[(0, 48, 72), (48, 96, 71)],
        &[(48, 96, 84)],
        &[(0, 48, 40), (240, 288, 91)],
        &[(192, 240, 72), (240, 288, 73)],
    ]);
    for (i, track) in score.tracks.iter_mut().enumerate() {
        for note in &mut track.parts[0] {
            note.vel = if i == 1 || i == 2 { 15 } else { 8 };
        }
    }
    let selected = anchors(&score);
    assert!(selected.contains(&(48, 84)), "{selected:?}");
    assert!(selected.contains(&(240, 91)), "{selected:?}");
}
