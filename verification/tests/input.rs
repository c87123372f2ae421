//! Files are told apart and read.
use mmlfold::assemble::finish;
use mmlfold::import::{parse_midi, MidiError};
use mmlfold::input::{
    is_midi_extension, is_midi_path, parse_named_bytes, parse_score_bytes, InputError, Parsed,
};
use mmlfold::midi::MidiFault;
use mmlfold::mmi::{parse_mmi, serialize_mmi};
use mmlfold::placing::{MidiImport, Spot};
use mmlfold::smf::SmfTiming;
use mmlfold::song::MidiSong;
use mmlfold::voices::minimum_end;
use mmlfold::Score;

/// Places the times of a song on the nearest ticks.
fn place_all(import: &mut MidiImport) -> Result<(), MidiFault> {
    let mut encoded = 0.0;
    while let Some(moment) = import.next_moment() {
        let actual = moment.units as f64 / moment.denominator as f64 / 1_000_000.0;
        let ticks_per_second = 96.0 * f64::from(moment.bpm) / 60.0;
        let desired = moment.target as f64 + (actual - encoded) * ticks_per_second;
        import.place(Spot {
            in_range: desired.is_finite() && desired < f64::from(i32::MAX),
            rounded: desired.round() as i64,
            over_half: desired - moment.target as f64 > 3.0,
        })?;
        encoded += (import.reached() - moment.target) as f64 / ticks_per_second;
    }
    Ok(())
}

fn score_of(bytes: &[u8]) -> Score {
    let mut import = parse_midi(bytes).unwrap();
    place_all(&mut import).unwrap();
    finish(&import).unwrap()
}

fn song(timing: SmfTiming, times: &[u64], tempos: &[(u64, u32)]) -> MidiImport {
    MidiImport::new(MidiSong {
        timing,
        notes: Vec::new(),
        tempos: tempos.to_vec(),
        signatures: times.iter().map(|&time| (time, (4, 4))).collect(),
        names: Vec::new(),
    })
}

const MIDI: &[u8] =
    b"MThd\0\0\0\x06\0\0\0\x01\0\x60MTrk\0\0\0\x0c\0\x90\x3c\x64\x60\x80\x3c\0\0\xff\x2f\0";

#[test]
fn byte_input_preserves_midi_detection_and_mmi_metadata() {
    let expected = score_of(MIDI);
    for name in ["music.mid", "music.MIDI", "music.bin"] {
        let score = match parse_score_bytes(name, MIDI).unwrap() {
            Parsed::Midi { mut import } => {
                place_all(&mut import).unwrap();
                finish(&import).unwrap()
            }
            Parsed::Score { .. } => panic!("{name} was not read as MIDI"),
        };
        assert_eq!(score.all_notes(), expected.all_notes());
        assert_eq!(serialize_mmi(&score), serialize_mmi(&expected));
    }
    assert_eq!(expected.all_notes().len(), 1);

    let text = "[mml-score]\ntempo=0T120,192T80\nmml-track=MML@c1,e1,g1;\nname=연습곡\nvisible=true\n[time-signature]\n0=3/4\n";
    let expected = parse_mmi(text).unwrap();
    let score = match parse_score_bytes("연습곡.mmi", text.as_bytes()).unwrap() {
        Parsed::Score { score } => score,
        Parsed::Midi { .. } => panic!("text was read as MIDI"),
    };
    assert_eq!(score.all_notes(), expected.all_notes());
    assert_eq!(score.tempos(), expected.tempos());
    assert_eq!(serialize_mmi(&score), serialize_mmi(&expected));
}

#[test]
fn byte_input_errors_identify_the_selected_file() {
    let midi_error = parse_score_bytes("broken.mid", b"not midi").err().unwrap();
    assert!(midi_error.message().contains("broken.mid"));
    let text_error = parse_score_bytes("broken.mmi", &[0xff]).err().unwrap();
    assert!(text_error.message().contains("MMI는 UTF-8"));
    assert!(text_error.message().contains("broken.mmi"));
    let unread = parse_score_bytes("odd.mmi", b"mml-track=MML@t0c;\nname=x\n");
    assert!(matches!(unread, Err(InputError::Mmi { .. })));
}

#[test]
fn local_short_boundaries_do_not_quantize_regular_triplets_to_a_six_tick_grid() {
    let mut import = song(SmfTiming::Metrical(96), &[0, 1, 2, 32, 64, 96], &[(0, 500_000)]);
    place_all(&mut import).unwrap();
    assert_eq!(import.ticks(), &vec![0, 0, 0, 32, 64, 96]);
    assert_eq!(minimum_end(0, &vec![0, 8, 32]).unwrap(), 8);
    assert_eq!(minimum_end(0, &vec![0, 32]).unwrap(), 6);
}

#[test]
fn source_clock_uses_exact_drop_frame_ratio_and_ignores_musical_tempo_for_smpte() {
    let mut import = song(
        SmfTiming::Timecode(29, 100),
        &[0, 3_000_000],
        &[(0, 1_000_000)],
    );
    let first = import.next_moment().unwrap();
    assert_eq!(first.units, 0);
    import
        .place(Spot {
            in_range: true,
            rounded: 0,
            over_half: false,
        })
        .unwrap();
    let moment = import.next_moment().unwrap();
    let seconds = moment.units as f64 / moment.denominator as f64 / 1_000_000.0;
    assert!((seconds - 1_001.0).abs() < 1e-10);
}

#[test]
fn fractional_tempo_compensation_is_absolute_over_long_sections() {
    let times = [0, 960, 96_000, 1_000_000, 10_000_000];
    let mut import = song(
        SmfTiming::Metrical(960),
        &times,
        &[(0, 497_925), (1_000_000, 501_001)],
    );
    place_all(&mut import).unwrap();
    let mut seconds = 0.0;
    let mut tick = 0;
    let mut bpm = 120;
    for &(at, next) in import.beats() {
        seconds += (at - tick) as f64 * 60.0 / (96.0 * f64::from(bpm));
        tick = at;
        bpm = next;
    }
    seconds += (import.ticks().last().unwrap() - tick) as f64 * 60.0 / (96.0 * f64::from(bpm));
    let original = (1_000_000.0 * 497_925.0 + 9_000_000.0 * 501_001.0) / 960.0 / 1_000_000.0;
    assert!((seconds - original).abs() < 0.003);
}

#[test]
fn paths_of_midi_files_are_told_by_their_ending() {
    assert!(is_midi_path("songs/music.mid"));
    assert!(is_midi_path("music.MIDI"));
    assert!(!is_midi_path("music.mmi"));
    assert!(!is_midi_path("mid"));
    assert!(is_midi_path("songs/./music.mid/."));
    assert!(!is_midi_path("songs/.mid") && !is_midi_path("..") && !is_midi_path("music.mid/.."));
    assert!(is_midi_path("songs/..mid") && !is_midi_path("music.mid."));
}

#[test]
fn the_system_tells_whether_backslashes_separate() {
    let wide = std::path::is_separator('\\');
    assert_eq!(is_midi_path("songs\\.mid"), !wide);
    assert_eq!(is_midi_path("music.mid\\x"), false);
    assert_eq!(is_midi_path("music.mid\\"), wide);
    assert_eq!(is_midi_path("C:.mid"), !wide);
    assert!(is_midi_path("C:\\songs\\music.mid") && is_midi_path("C:music.MID"));
}

#[test]
fn what_the_name_says_or_the_first_bytes_decide() {
    assert!(is_midi_extension("MiDi") && is_midi_extension("mid"));
    assert!(!is_midi_extension("mi") && !is_midi_extension("midx") && !is_midi_extension(""));
    assert!(matches!(parse_named_bytes("x", true, b"text"), Err(InputError::Midi { .. })));
    assert!(matches!(parse_named_bytes("x", false, b"text"), Ok(Parsed::Score { .. })));
    assert!(matches!(parse_named_bytes("x", false, MIDI), Ok(Parsed::Midi { .. })));
}

#[test]
fn an_unreadable_midi_file_is_refused() {
    assert!(matches!(parse_midi(b"MThd"), Err(MidiError::Unreadable { .. })));
    let no_tracks = b"MThd\0\0\0\x06\0\x01\0\0\0\x60";
    assert!(matches!(
        parse_midi(no_tracks),
        Err(MidiError::Fault {
            fault: MidiFault::NoTracks
        })
    ));
    let sequential =
        b"MThd\0\0\0\x06\0\x02\0\x01\0\x60MTrk\0\0\0\x0c\0\x90\x3c\x64\x60\x80\x3c\0\0\xff\x2f\0";
    assert!(matches!(
        parse_midi(sequential),
        Err(MidiError::Fault {
            fault: MidiFault::Sequential
        })
    ));
}

#[test]
fn a_midi_note_becomes_a_note_of_the_score() {
    let score = score_of(MIDI);
    let note = score.all_notes()[0];
    assert_eq!((note.on, note.off, note.pitch), (0, 96, 60));
    assert_eq!(score.tempos(), vec![(0, 120)]);
}

/// A file of chunks: each has a name of four letters and a content.
fn chunked(chunks: &[(&[u8; 4], &[u8])]) -> Vec<u8> {
    let mut bytes = Vec::new();
    for (name, content) in chunks {
        bytes.extend_from_slice(&name[..]);
        bytes.extend_from_slice(&(content.len() as u32).to_be_bytes());
        bytes.extend_from_slice(content);
    }
    bytes
}

fn wrapped(content: &[u8]) -> Vec<u8> {
    let mut inner = b"RMIDINFO\x03\0\0\0abc\0data".to_vec();
    inner.extend_from_slice(&(content.len() as u32).to_le_bytes());
    inner.extend_from_slice(content);
    let mut bytes = b"RIFF".to_vec();
    bytes.extend_from_slice(&(inner.len() as u32).to_le_bytes());
    bytes.extend_from_slice(&inner);
    bytes
}

#[test]
fn only_a_header_that_is_read_refuses_a_file() {
    const HEAD: &[u8] = &[0, 1, 0, 2, 0, 96];
    const ODD: &[u8] = &[0, 1, 0, 2, 128, 4];
    const TRACK: &[u8] = &[0, 0x90, 60, 100, 96, 0x80, 60, 0, 0, 0xff, 0x2f, 0];
    let plain = chunked(&[(b"MThd", HEAD), (b"MTrk", TRACK)]);
    let further = chunked(&[(b"MThd", HEAD), (b"MTrk", TRACK), (b"MThd", ODD), (b"MTrk", TRACK)]);
    let other = chunked(&[(b"MThd", HEAD), (b"XXXX", b"MThd....\0\0\0\x80\x80"), (b"MTrk", TRACK)]);
    for bytes in [plain, further, other] {
        assert_eq!(score_of(&bytes).all_notes().len(), 1);
        assert_eq!(score_of(&wrapped(&bytes)).all_notes().len(), 1);
    }
    let first = chunked(&[(b"MThd", ODD), (b"MTrk", TRACK)]);
    assert!(matches!(parse_midi(&first), Err(MidiError::Unreadable { .. })));
    assert!(matches!(parse_midi(&wrapped(&first)), Err(MidiError::Unreadable { .. })));
}
