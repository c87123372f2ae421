//! What a piano roll shows.
use mmlfold::audibility::Audibility;
use mmlfold::mmi::parse_mmi;
use mmlfold::playback::PlaybackState;
use mmlfold::roll::{
    buttons, check_output, grid_ticks, note_label, octave_marks, pitch_range, playback_time,
    scroll_label, scroll_marks, shown_notes, tick_range, OutputFault,
};
use mmlfold::workflow::{SplitChunkPreview, SplitPreview};
use mmlfold::workspace::keep_in_sight;

fn preview() -> SplitPreview {
    let chunk = |start, end, widths: &[&[usize]]| SplitChunkPreview {
        start,
        end,
        part_widths: widths.iter().map(|w| w.to_vec()).collect(),
    };
    SplitPreview {
        limit: 2400,
        chunks: vec![
            chunk(0, 384, &[&[7, 1200], &[3]]),
            chunk(384, 768, &[]),
            chunk(768, 900, &[&[5]]),
        ],
    }
}

#[test]
fn the_range_of_a_piano_grows_with_the_notes() {
    let score = parse_mmi("mml-track=MML@o4c,o0c;\n").unwrap();
    assert_eq!(pitch_range(&score), (12, 108));
    assert_eq!(pitch_range(&parse_mmi("mml-track=MML@o8b;\n").unwrap()), (21, 119));
    assert_eq!(octave_marks(21, 36), vec![(24, 1), (36, 2)]);
    assert_eq!(octave_marks(-13, 0), vec![(-12, -2), (0, -1)]);
    assert_eq!(octave_marks(5, 4), vec![]);
}

#[test]
fn lines_are_drawn_by_bars_or_by_four() {
    assert_eq!(grid_ticks(100, 800), vec![384, 768]);
    assert_eq!(grid_ticks(0, 384), vec![0, 384]);
    assert_eq!(grid_ticks(1, 6240), vec![1536, 3072, 4608, 6144]);
    assert_eq!(grid_ticks(1, 10), vec![]);
}

#[test]
fn notes_are_cut_to_what_is_in_sight() {
    let score = parse_mmi("mml-track=MML@c1d4,e4;\nvisible=true\nmml-track=MML@r2g4;\n").unwrap();
    let mut sound = Audibility::all(&score);
    sound.set_part_enabled(0, 1, false);
    let shown = shown_notes(&score, 48, 336, &Some(sound));
    let found: Vec<_> = shown
        .iter()
        .map(|n| (n.track, n.part, n.from, n.to, n.note.pitch, n.audible))
        .collect();
    assert_eq!(
        found,
        vec![
            (0, 0, 48, 384, 60, true),
            (0, 1, 48, 96, 64, false),
            (1, 0, 192, 288, 67, true),
        ]
    );
    assert!(shown_notes(&score, 48, 336, &None).iter().all(|n| n.audible));
    assert_eq!(
        note_label(0, 1, &shown[1].note),
        "트랙 1 · 파트 2\nMIDI 64 · v8\n0–96틱"
    );
}

#[test]
fn scrolls_are_marked_where_they_begin() {
    let split = preview();
    assert_eq!(scroll_marks(&split, 0, 800), vec![(1, 384), (2, 768)]);
    assert_eq!(scroll_marks(&split, 385, 382), vec![]);
    assert_eq!(scroll_marks(&split, 385, 383), vec![(2, 768)]);
    assert_eq!(
        scroll_label(&split, 0, &tick_range(0, 384)),
        "01장 · 0–384 틱\n가장 긴 파트 1,200자 / 2,400자\n클릭하여 이 구간 보기"
    );
    assert!(scroll_label(&split, 1, "x").contains("파트 0자"));
}

#[test]
fn times_are_written_with_hours_only_where_needed() {
    assert_eq!(playback_time(59), "00:59");
    assert_eq!(playback_time(3599), "59:59");
    assert_eq!(playback_time(3725), "1:02:05");
    assert_eq!(playback_time(360_000), "100:00:00");
}

#[test]
fn buttons_follow_the_state() {
    let b = buttons(true, PlaybackState::Playing);
    assert!(!b.play && b.pause && b.stop);
    let b = buttons(true, PlaybackState::Paused);
    assert!(b.play && !b.pause && b.stop);
    let b = buttons(false, PlaybackState::Stopped);
    assert!(!b.play && !b.pause && !b.stop);
    assert_eq!(keep_in_sight(500, 4, 600), 216);
    assert_eq!(keep_in_sight(100, 4, 600), 100);
    assert_eq!(keep_in_sight(100, 4, 300), 0);
}

#[test]
fn odd_sound_devices_are_refused() {
    assert_eq!(check_output(2, 44_100), Ok(()));
    assert_eq!(check_output(0, 44_100), Err(OutputFault::Invalid));
    assert_eq!(check_output(2, 0), Err(OutputFault::Invalid));
    assert_eq!(check_output(2, 8_000), Err(OutputFault::SampleRate { rate: 8_000 }));
    assert_eq!(check_output(1, 192_001), Err(OutputFault::SampleRate { rate: 192_001 }));
}
