//! Files are named and put together.
use mmlfold::archive::{bundle, download, finish_bundle, BundleError};
use mmlfold::bag::compare_notes;
use mmlfold::downloads::{find_scores, names_score, number_name, safe_filename};
use mmlfold::fold::{Gain, VolumeRange};
use mmlfold::mmi::parse_mmi;
use mmlfold::options::{number, parse_gain, parse_volume_range};
use mmlfold::shapes::shapes;
use mmlfold::workflow::Artifact;
use mmlfold::Note;
use std::io::{Cursor, Read};

fn file(name: &str, text: &str) -> Artifact {
    Artifact {
        name: name.to_owned(),
        text: text.to_owned(),
        game_parts: Vec::new(),
        tempo_note_splits: 0,
    }
}

#[test]
fn names_are_made_safe() {
    assert_eq!(safe_filename("폴더/곡?:1.mmi", "x"), "곡__1.mmi");
    assert_eq!(safe_filename("a\\b.mmi .", "x"), "b.mmi");
    assert_eq!(safe_filename("con.mmi", "x"), "_con.mmi");
    assert_eq!(safe_filename("Com7", "x"), "_Com7");
    assert_eq!(safe_filename("com0.mmi", "x"), "com0.mmi");
    assert_eq!(safe_filename("dir/", "대신"), "대신");
    assert_eq!(number_name("곡.mmi", 1), "곡_02.mmi");
    assert_eq!(number_name("곡", 99), "곡_100.mmi");
    assert!(names_score("a.MMI") && !names_score("mmi") && !names_score("a.txt"));
    let files = vec![file("a.txt", ""), file("b.mmi", ""), file("c.Mmi", "")];
    assert_eq!(find_scores(&files), vec![1, 2]);
}

#[test]
fn a_bundle_holds_every_score_under_a_name_of_its_own() {
    let files = vec![
        file("곡.mmi", "하나"),
        file("읽기.txt", "아님"),
        file("A.mmi", "둘"),
        file("a.mmi", "셋"),
        file("/", "아님"),
        file("x/.mmi", "넷"),
    ];
    let bytes = finish_bundle(bundle(&files).unwrap()).unwrap();
    assert!(bytes.starts_with(b"PK") && bytes.len() >= 22);
    let end = &bytes[bytes.len() - 22..];
    assert_eq!((&end[..4], &end[10..12], &end[20..]), (&b"PK\x05\x06"[..], &[4, 0][..], &[0, 0][..]));
    let stored = "a_03.mmi셋".as_bytes();
    assert!(bytes.windows(stored.len()).any(|w| w == stored));
    let mut archive = zip::ZipArchive::new(Cursor::new(bytes)).unwrap();
    let mut found = Vec::new();
    for i in 0..archive.len() {
        let mut member = archive.by_index(i).unwrap();
        let mut text = String::new();
        member.read_to_string(&mut text).unwrap();
        found.push((member.name().unwrap().into_owned(), text));
    }
    let expected: Vec<(String, String)> = [
        ("곡.mmi", "하나"),
        ("A.mmi", "둘"),
        ("a_03.mmi", "셋"),
        (".mmi", "넷"),
    ]
    .iter()
    .map(|&(name, text)| (name.to_owned(), text.to_owned()))
    .collect();
    assert_eq!(found, expected);
    assert!(matches!(bundle(&vec![file("a.txt", "")]), Err(BundleError::Empty)));
}

#[test]
fn a_name_that_is_too_long_is_refused() {
    let name = |n: usize| format!("{}.mmi", "a".repeat(n));
    let long = bundle(&vec![file("b.mmi", "x"), file(&name(65_501), "y")]);
    assert!(matches!(long, Err(BundleError::Start { .. })));
    let whole = bundle(&vec![file(&name(65_500), "y")]).unwrap();
    let bytes = finish_bundle(whole).unwrap();
    assert!(bytes.len() > 2 * 65_504 + 22);
    let stored = format!("{}y", name(65_500)).into_bytes();
    assert!(bytes.windows(stored.len()).any(|w| w == &stored[..]));
}

#[test]
fn many_files_are_counted_by_a_wider_record() {
    let options = zip::write::SimpleFileOptions::default()
        .compression_method(zip::CompressionMethod::Stored);
    let mut writer = zip::ZipWriter::new(Cursor::new(Vec::new()));
    for i in 0..0x1_0002_u32 {
        writer.start_file(format!("{i}"), options).unwrap();
    }
    let bytes = writer.finish().unwrap().into_inner();
    let n = bytes.len();
    assert_eq!(&bytes[n - 22..n - 18], b"PK\x05\x06");
    assert_eq!(&bytes[n - 12..n - 10], &[0xff, 0xff]);
    assert_eq!(&bytes[n - 2..], &[0, 0]);
    assert_eq!(&bytes[n - 98..n - 94], b"PK\x06\x06");
    assert_eq!(&bytes[n - 66..n - 58], &[2, 0, 1, 0, 0, 0, 0, 0]);
}

#[test]
fn one_score_is_handed_over_as_it_is_and_several_as_a_bundle() {
    let one = download(&vec![file("a.txt", "-"), file("폴더/곡.mmi", "하나")], "모음").unwrap();
    assert_eq!((one.name.as_str(), one.zipped), ("곡.mmi", false));
    assert_eq!(one.bytes, "하나".as_bytes());
    assert_eq!(one.notice, "곡.mmi 다운로드");
    let two = download(&vec![file("a.mmi", "하나"), file("b.mmi", "둘")], "모/음?").unwrap();
    assert_eq!((two.name.as_str(), two.zipped), ("음_.zip", true));
    assert_eq!(two.notice, "2개 MMI 파일 다운로드");
    let stored = "b.mmi둘".as_bytes();
    assert!(two.bytes.windows(stored.len()).any(|w| w == stored));
    let end = two.bytes.len();
    assert_eq!(&two.bytes[end - 12..end - 10], &[2, 0]);
    let none = download(&vec![file("a.txt", "")], "x").unwrap_err();
    assert_eq!(none.message(0), "저장할 MMI 파일이 없습니다");
    let error = BundleError::Start { reason: "이유".to_owned() };
    assert_eq!(error.message(3), "3개 파일을 묶지 못했습니다: 이유");
}

#[test]
fn options_are_read() {
    assert_eq!(parse_volume_range("11:15"), Ok(VolumeRange { min: 11, max: 15 }));
    for text in ["", "11", "0:15", "12:11", "1:16", "a:b"] {
        assert!(parse_volume_range(text).unwrap_err().contains("11:15"), "{text}");
    }
    assert_eq!(parse_gain("auto"), Some(Gain::Auto));
    assert_eq!(parse_gain("none"), Some(Gain::Unchanged));
    assert_eq!(parse_gain("-3"), Some(Gain::Shift(-3)));
    assert_eq!(parse_gain("+3"), Some(Gain::Shift(3)));
    assert_eq!(parse_gain("99999999999"), None);
    assert_eq!(parse_gain("loud"), None);
    assert_eq!(number(1_234_567), "1,234,567");
    assert_eq!(number(0), "0");
    assert_eq!(number(1000), "1,000");
}

#[test]
fn notes_are_compared_however_they_are_ordered() {
    let note = |on: i64, pitch: i32, src: usize| Note {
        on,
        off: on + 6,
        pitch,
        vel: 8,
        src: (src, 0),
    };
    let ours = [note(0, 60, 0), note(6, 62, 0), note(6, 62, 1), note(9, 64, 0)];
    let theirs = [note(6, 62, 5), note(0, 60, 3)];
    let found = compare_notes(&ours, &theirs);
    assert_eq!(found.common, 2);
    assert_eq!(found.missing, 2);
    let extra: Vec<_> = found.extra.iter().map(|(n, k)| (n.on, n.pitch, *k)).collect();
    assert_eq!(extra, vec![(6, 62, 1), (9, 64, 1)]);
}

#[test]
fn forms_of_commands_are_counted() {
    let score = parse_mmi("mml-track=MML@t120c4c8d,c16;\n").unwrap();
    let tally = shapes(&score);
    assert!(tally.holds("t#") && tally.holds("c#") && tally.holds("d") && !tally.holds("e"));
    let count = (0..tally.len())
        .map(|i| tally.entry(i))
        .find(|(form, _)| form.as_str() == "c#")
        .unwrap()
        .1;
    assert_eq!(count, 3);
}
