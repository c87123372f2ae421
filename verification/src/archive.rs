//! Bundling files into one.
use crate::downloads::{find_scores, number_name, numbered_name, safe_filename, safe_name, score_files, artifact_names};
use crate::text::{chars_of, number_text, padded_front, push_count, push_padded, push_text, same_chars, string_of, string_views};
use crate::workflow::Artifact;
use vstd::prelude::*;
use vstd::utf8::encode_utf8;

verus! {

/// A file in a bundle: its name and its bytes.
pub type Member = (Seq<char>, Seq<u8>);

/// A bundle that is being made.
#[verifier::external_body]
pub struct Archive {
    writer: zip::ZipWriter<std::io::Cursor<Vec<u8>>>,
}

/// The files that a bundle holds so far, in order.
pub uninterp spec fn members(archive: Archive) -> Seq<Member>;

/// Whether every call on a bundle so far has gone well.
pub uninterp spec fn is_open(archive: Archive) -> bool;

/// `zip::ZipWriter::new` over a buffer in memory: a bundle without files, on which no call has
/// failed.
#[verifier::external_body]
fn new_archive() -> (archive: Archive)
    ensures
        members(archive) == Seq::<Member>::empty(),
        is_open(archive),
{
    Archive { writer: zip::ZipWriter::new(std::io::Cursor::new(Vec::new())) }
}

/// Whether the name of a file is too long to be written: with the thirty bytes before it, it does
/// not fit into 16 bits.
pub open spec fn is_long_name(name: Seq<char>) -> bool {
    encode_utf8(name).len() + 30 >= 0xffff
}

/// Whether a file is too long to be written: its length does not fit into 32 bits.
pub open spec fn is_long_file(bytes: Seq<u8>) -> bool {
    bytes.len() >= 0xffff_ffff
}

/// Whether a name is that of a file of a bundle.
pub open spec fn is_member(files: Seq<Member>, name: Seq<char>) -> bool {
    exists|i: int| 0 <= i < files.len() && (#[trigger] files[i]).0 == name
}

/// `zip::ZipWriter::start_file`, with the files stored as they are: where it succeeds an empty
/// file with the name has come to the bundle. While no call has failed, it refuses a name that
/// the bundle has and one that is too long, and no other, since the buffer is in memory.
#[verifier::external_body]
fn start_member(archive: &mut Archive, name: &str) -> (r: Result<(), String>)
    ensures
        r is Ok ==> members(*final(archive)) == members(*old(archive)).push(
            (name@, Seq::<u8>::empty()),
        ),
        r is Ok && is_open(*old(archive)) ==> is_open(*final(archive)),
        is_open(*old(archive)) ==> (r is Ok) == (!is_long_name(name@) && !is_member(
            members(*old(archive)),
            name@,
        )),
{
    let options = zip::write::SimpleFileOptions::default()
        .compression_method(zip::CompressionMethod::Stored);
    archive.writer.start_file(name, options).map_err(|error| error.to_string())
}

/// `std::io::Write::write_all` on a `zip::ZipWriter`: where it succeeds the bytes have come to
/// the end of the file that was started last. While no call has failed, it refuses bytes with
/// which that file would be too long, and no others.
#[verifier::external_body]
fn write_member(archive: &mut Archive, bytes: &[u8]) -> (r: Result<(), String>)
    requires
        members(*old(archive)).len() > 0,
    ensures
        r is Ok ==> members(*final(archive)) == members(*old(archive)).drop_last().push(
            (members(*old(archive)).last().0, members(*old(archive)).last().1 + bytes@),
        ),
        r is Ok && is_open(*old(archive)) ==> is_open(*final(archive)),
        is_open(*old(archive)) ==> (r is Ok) == !is_long_file(
            members(*old(archive)).last().1 + bytes@,
        ),
{
    std::io::Write::write_all(&mut archive.writer, bytes).map_err(|error| error.to_string())
}

/// Whether the name of a file and behind it its bytes stand in the bytes of a bundle.
pub open spec fn stands_in(bytes: Seq<u8>, file: Member) -> bool {
    let own = encode_utf8(file.0) + file.1;
    exists|from: int|
        0 <= from && from + own.len() <= bytes.len() && #[trigger] bytes.subrange(
            from,
            from + own.len(),
        ) == own
}

/// The number that some bytes give, the lowest of them first.
pub open spec fn low_first(bytes: Seq<u8>, at: int, count: nat) -> int
    decreases count,
{
    if count == 0 {
        0
    } else {
        bytes[at] + 0x100 * low_first(bytes, at + 1, (count - 1) as nat)
    }
}

/// Whether the bytes of a bundle end with a record, without words behind it, that counts so many
/// files. More than fit into 16 bits are counted by a wider record ahead of it, with one between
/// the two that tells where the wider one stands.
pub open spec fn counts_files(bytes: Seq<u8>, files: int) -> bool {
    let n = bytes.len() as int;
    &&& n >= 22
    &&& bytes.subrange(n - 22, n - 18) == seq![0x50u8, 0x4b, 0x05, 0x06]
    &&& low_first(bytes, n - 12, 2) == if files < 0xffff {
        files
    } else {
        0xffff
    }
    &&& low_first(bytes, n - 2, 2) == 0
    &&& files > 0xffff ==> n >= 98 && bytes.subrange(n - 98, n - 94) == seq![
        0x50u8,
        0x4b,
        0x06,
        0x06,
    ] && low_first(bytes, n - 66, 8) == files
}

/// `zip::ZipWriter::finish`: the bytes of the bundle, which are never fewer than the 22 of the
/// record at the end. While no call has failed, it succeeds, every file stands in the bytes as it
/// is, behind its name, and the record at the end counts the files, so that there is no other.
/// The other bytes, with a mark of the system that they were made on, are left unsaid.
#[verifier::external_body]
fn close_archive(archive: Archive) -> (r: Result<Vec<u8>, String>)
    ensures
        is_open(archive) ==> r is Ok,
        r matches Ok(bytes) ==> bytes@.len() >= 22 && (is_open(archive) ==> counts_files(
            bytes@,
            members(archive).len() as int,
        ) && forall|i: int|
            0 <= i < members(archive).len() ==> stands_in(bytes@, #[trigger] members(archive)[i])),
{
    archive.writer.finish().map(|buffer| buffer.into_inner()).map_err(|error| error.to_string())
}

/// A text in small letters, as Unicode has them.
pub uninterp spec fn lowered(s: Seq<char>) -> Seq<char>;

/// `str::to_lowercase`: its result depends on the text alone.
#[verifier::external_body]
fn lower_text(s: &str) -> (r: String)
    ensures
        r@ == lowered(s@),
{
    s.to_lowercase()
}

/// Why files cannot be bundled.
#[derive(Debug)]
pub enum BundleError {
    /// There is no score among them.
    Empty,
    /// No name that is free could be found for a file.
    NoName,
    /// A file could not be put into the bundle.
    Start { reason: String },
    /// The bytes of a file could not be written.
    Write { reason: String },
    /// The bundle could not be finished.
    Finish { reason: String },
}

/// The name that a file goes by where that is free; else it gets its number, as often as it
/// takes.
pub open spec fn free_name(taken: Seq<Seq<char>>, name: Seq<char>, index: int, tries: nat) -> Option<Seq<char>>
    decreases tries,
{
    if !taken.contains(lowered(name)) {
        Some(name)
    } else if tries == 0 {
        None
    } else {
        free_name(taken, numbered_name(name, index), index, (tries - 1) as nat)
    }
}

/// What a file is called that has no name of its own.
pub open spec fn nameless(index: int) -> Seq<char> {
    "악보_"@ + padded_front(number_text(index + 1), 2, '0') + ".mmi"@
}

/// The first files of a bundle, each under a name of its own: the small letters of the names
/// tell which are taken.
pub open spec fn bundled(artifacts: Seq<Artifact>, places: Seq<usize>, n: int) -> Option<Seq<Member>>
    decreases n,
{
    if n <= 0 {
        Some(Seq::empty())
    } else {
        match bundled(artifacts, places, n - 1) {
            None => None,
            Some(before) => {
                let a = artifacts[places[n - 1] as int];
                match free_name(
                    taken_names(before),
                    safe_name(a.name@, nameless(n - 1)),
                    n - 1,
                    before.len(),
                ) {
                    None => None,
                    Some(name) => Some(before.push((name, encode_utf8(a.text@)))),
                }
            },
        }
    }
}

/// The small letters of the names of files.
pub open spec fn taken_names(files: Seq<Member>) -> Seq<Seq<char>> {
    Seq::new(files.len(), |i: int| lowered(files[i].0))
}

fn find_name(taken: &Vec<String>, first: String, index: usize) -> (r: Option<String>)
    ensures
        match r {
            Some(name) => free_name(
                string_views(taken@),
                first@,
                index as int,
                taken@.len(),
            ) == Some(name@),
            None => free_name(string_views(taken@), first@, index as int, taken@.len()) is None,
        },
{
    let ghost all = string_views(taken@);
    let ghost start = first@;
    let mut name = first;
    let mut tries: usize = taken.len();
    loop
        invariant
            start == first@,
            all == string_views(taken@),
            free_name(all, start, index as int, taken@.len()) == free_name(
                all,
                name@,
                index as int,
                tries as nat,
            ),
        decreases tries,
    {
        let small = lower_text(name.as_str());
        if !is_taken(taken, small.as_str()) {
            return Some(name);
        }
        if tries == 0 {
            return None;
        }
        name = number_name(name.as_str(), index);
        tries -= 1;
    }
}

fn is_taken(taken: &Vec<String>, small: &str) -> (r: bool)
    ensures
        r == string_views(taken@).contains(small@),
{
    let wanted = chars_of(small);
    let ghost all = string_views(taken@);
    let mut i: usize = 0;
    while i < taken.len()
        invariant
            i <= taken.len(),
            wanted@ == small@,
            all == string_views(taken@),
            forall|k: int| 0 <= k < i ==> #[trigger] all[k] != small@,
        decreases taken.len() - i,
    {
        if same_chars(&chars_of(taken[i].as_str()), &wanted) {
            proof {
                assert(all[i as int] == small@);
            }
            return true;
        }
        i += 1;
    }
    false
}

/// Whether no file of a bundle is too long, and none of their names.
pub open spec fn all_short(files: Seq<Member>) -> bool {
    forall|i: int|
        0 <= i < files.len() ==> !is_long_name((#[trigger] files[i]).0) && !is_long_file(files[i].1)
}

/// Whether the last of the first files has got a name that is too long.
pub open spec fn name_fails(artifacts: Seq<Artifact>, places: Seq<usize>, n: int) -> bool {
    bundled(artifacts, places, n) matches Some(files) && files.len() > 0 && is_long_name(
        files.last().0,
    )
}

/// Whether the last of the first files is too long.
pub open spec fn file_fails(artifacts: Seq<Artifact>, places: Seq<usize>, n: int) -> bool {
    bundled(artifacts, places, n) matches Some(files) && files.len() > 0 && is_long_file(
        files.last().1,
    )
}

/// Bundles the scores among some files, each under a name of its own. It goes well exactly where
/// there are scores, every one of them finds a name, and neither a name nor a file is too long.
#[verifier::rlimit(60)]
pub fn bundle(artifacts: &Vec<Artifact>) -> (r: Result<Archive, BundleError>)
    ensures
        ({
            let places = score_files(artifact_names(artifacts@), artifacts.len() as int);
            let n = places.len() as int;
            &&& (r is Ok) == (n > 0 && bundled(artifacts@, places, n) is Some && all_short(
                bundled(artifacts@, places, n)->Some_0,
            ))
            &&& match r {
                Ok(archive) => is_open(archive) && bundled(artifacts@, places, n) == Some(
                    members(archive),
                ),
                Err(BundleError::Empty) => n == 0,
                Err(BundleError::NoName) => n > 0 && bundled(artifacts@, places, n) is None,
                Err(BundleError::Start { .. }) => exists|k: int|
                    1 <= k <= n && #[trigger] name_fails(artifacts@, places, k),
                Err(BundleError::Write { .. }) => exists|k: int|
                    1 <= k <= n && #[trigger] file_fails(artifacts@, places, k),
                Err(BundleError::Finish { .. }) => false,
            }
        }),
{
    let places = find_scores(artifacts);
    if places.len() == 0 {
        return Err(BundleError::Empty);
    }
    proof {
        lemma_score_files(artifact_names(artifacts@), artifacts.len() as int);
    }
    let mut archive = new_archive();
    let mut taken: Vec<String> = Vec::new();
    let mut n: usize = 0;
    proof {
        assert(string_views(taken@) =~= taken_names(members(archive)));
    }
    while n < places.len()
        invariant
            n <= places.len(),
            places.len() > 0,
            places@ == score_files(artifact_names(artifacts@), artifacts.len() as int),
            forall|k: int| 0 <= k < places.len() ==> (#[trigger] places[k]) < artifacts.len(),
            bundled(artifacts@, places@, n as int) == Some(members(archive)),
            string_views(taken@) == taken_names(members(archive)),
            is_open(archive),
            all_short(members(archive)),
        decreases places.len() - n,
    {
        proof {
            assert(places[n as int] < artifacts.len());
        }
        let artifact = &artifacts[places[n]];
        let mut fallback = chars_of("악보_");
        push_padded(&mut fallback, n as u128 + 1, 2, '0');
        push_text(&mut fallback, ".mmi");
        let own = safe_filename(artifact.name.as_str(), string_of(&fallback).as_str());
        let ghost before = members(archive);
        proof {
            assert(taken_names(before).len() == before.len());
            assert(string_views(taken@).len() == taken@.len());
        }
        let name = match find_name(&taken, own, n) {
            None => {
                proof {
                    lemma_bundle_fails(artifacts@, places@, n + 1, places@.len() as int);
                }
                return Err(BundleError::NoName);
            },
            Some(name) => name,
        };
        let ghost added = (name@, encode_utf8(artifact.text@));
        proof {
            lemma_free_name(
                taken_names(before),
                safe_name(artifact.name@, nameless(n as int)),
                n as int,
                before.len(),
            );
            if is_member(before, name@) {
                let i = choose|i: int| 0 <= i < before.len() && (#[trigger] before[i]).0 == name@;
                assert(taken_names(before)[i] == lowered(name@));
            }
            assert(bundled(artifacts@, places@, n + 1) == Some(before.push(added)));
            assert(before.push(added).last() == added);
            if bundled(artifacts@, places@, places@.len() as int) is Some {
                lemma_bundled_prefix(artifacts@, places@, n + 1, places@.len() as int);
                let all = bundled(artifacts@, places@, places@.len() as int)->Some_0;
                assert(before.push(added)[before.len() as int] == added);
                assert(all[before.len() as int] == added);
            }
        }
        match start_member(&mut archive, name.as_str()) {
            Err(reason) => {
                proof {
                    assert(name_fails(artifacts@, places@, n + 1));
                }
                return Err(BundleError::Start { reason });
            },
            Ok(_) => {},
        }
        proof {
            assert(before.push((name@, Seq::<u8>::empty())).last().1 + encode_utf8(artifact.text@)
                =~= encode_utf8(artifact.text@));
        }
        match write_member(&mut archive, artifact.text.as_str().as_bytes()) {
            Err(reason) => {
                proof {
                    assert(file_fails(artifacts@, places@, n + 1));
                }
                return Err(BundleError::Write { reason });
            },
            Ok(_) => {},
        }
        let ghost old_taken = string_views(taken@);
        taken.push(lower_text(name.as_str()));
        proof {
            assert(Seq::<u8>::empty() + encode_utf8(artifact.text@) =~= encode_utf8(artifact.text@));
            assert(before.push((name@, Seq::<u8>::empty())).drop_last() =~= before);
            assert(members(archive) == before.push((name@, encode_utf8(artifact.text@))));
            assert(string_views(taken@) =~= old_taken.push(lowered(name@)));
            assert(taken_names(members(archive)) =~= taken_names(before).push(lowered(name@)));
            assert forall|i: int| 0 <= i < members(archive).len() implies !is_long_name(
                (#[trigger] members(archive)[i]).0,
            ) && !is_long_file(members(archive)[i].1) by {
                if i < before.len() {
                    assert(members(archive)[i] == before[i]);
                } else {
                    assert(members(archive)[i] == added);
                }
            }
        }
        n += 1;
    }
    Ok(archive)
}

/// Makes the bytes of a bundle. On a bundle that was made without a fault it goes well, every file
/// stands in the bytes as it is, behind its name, and the bytes end with their count.
pub fn finish_bundle(archive: Archive) -> (r: Result<Vec<u8>, BundleError>)
    ensures
        is_open(archive) ==> r is Ok,
        match r {
            Ok(bytes) => bytes@.len() >= 22 && (is_open(archive) ==> counts_files(
                bytes@,
                members(archive).len() as int,
            ) && forall|i: int|
                0 <= i < members(archive).len() ==> stands_in(
                    bytes@,
                    #[trigger] members(archive)[i],
                )),
            Err(e) => e is Finish && !is_open(archive),
        },
{
    match close_archive(archive) {
        Ok(bytes) => Ok(bytes),
        Err(reason) => Err(BundleError::Finish { reason }),
    }
}

/// What is handed over to be saved: a name and bytes, whether it is a bundle, and what is said of
/// it.
#[derive(Debug)]
pub struct Download {
    pub name: String,
    pub bytes: Vec<u8>,
    pub zipped: bool,
    pub notice: String,
}

/// Whether something handed over is the one score among some files, as it is.
pub open spec fn is_single_file(d: Download, artifact: Artifact) -> bool {
    &&& d.name@ == safe_name(artifact.name@, "악보.mmi"@)
    &&& d.bytes@ == encode_utf8(artifact.text@)
    &&& !d.zipped
    &&& d.notice@ == d.name@ + " 다운로드"@
}

/// Whether something handed over is a bundle of files and of no others, under the name of the
/// whole.
pub open spec fn is_bundle_of(d: Download, files: Seq<Member>, stem: Seq<char>) -> bool {
    &&& d.name@ == safe_name(stem, "악보"@) + ".zip"@
    &&& counts_files(d.bytes@, files.len() as int)
    &&& forall|i: int| 0 <= i < files.len() ==> stands_in(d.bytes@, #[trigger] files[i])
    &&& d.zipped
    &&& d.notice@ == number_text(files.len() as int) + "개 MMI 파일 다운로드"@
}

fn copy_bytes(bytes: &[u8]) -> (r: Vec<u8>)
    ensures
        r@ == bytes@,
{
    let mut r: Vec<u8> = Vec::new();
    let mut i: usize = 0;
    while i < bytes.len()
        invariant
            i <= bytes.len(),
            r@ == bytes@.take(i as int),
        decreases bytes.len() - i,
    {
        r.push(bytes[i]);
        i += 1;
        proof {
            assert(r@ =~= bytes@.take(i as int));
        }
    }
    proof {
        assert(bytes@.take(i as int) =~= bytes@);
    }
    r
}

/// Hands the scores among some files over to be saved: one as it is, several as a bundle.
pub fn download(artifacts: &Vec<Artifact>, stem: &str) -> (r: Result<Download, BundleError>)
    ensures
        ({
            let places = score_files(artifact_names(artifacts@), artifacts.len() as int);
            let n = places.len() as int;
            &&& (r is Ok) == (n == 1 || (n > 1 && bundled(artifacts@, places, n) is Some
                && all_short(bundled(artifacts@, places, n)->Some_0)))
            &&& match r {
                Ok(d) => if n == 1 {
                    is_single_file(d, artifacts@[places[0] as int])
                } else {
                    bundled(artifacts@, places, n)->Some_0.len() == n && is_bundle_of(
                        d,
                        bundled(artifacts@, places, n)->Some_0,
                        stem@,
                    )
                },
                Err(BundleError::Empty) => n == 0,
                Err(BundleError::NoName) => n > 1 && bundled(artifacts@, places, n) is None,
                Err(BundleError::Start { .. }) => exists|k: int|
                    1 <= k <= n && #[trigger] name_fails(artifacts@, places, k),
                Err(BundleError::Write { .. }) => exists|k: int|
                    1 <= k <= n && #[trigger] file_fails(artifacts@, places, k),
                Err(BundleError::Finish { .. }) => false,
            }
        }),
{
    let places = find_scores(artifacts);
    proof {
        lemma_score_files(artifact_names(artifacts@), artifacts.len() as int);
    }
    if places.len() == 1 {
        proof {
            assert(places[0] < artifacts.len());
        }
        let artifact = &artifacts[places[0]];
        let name = safe_filename(artifact.name.as_str(), "악보.mmi");
        let mut notice = chars_of(name.as_str());
        push_text(&mut notice, " 다운로드");
        let bytes = copy_bytes(artifact.text.as_str().as_bytes());
        return Ok(Download { name, bytes, zipped: false, notice: string_of(&notice) });
    }
    let archive = match bundle(artifacts) {
        Err(e) => return Err(e),
        Ok(archive) => archive,
    };
    proof {
        lemma_bundled_length(artifacts@, places@, places.len() as int);
    }
    let bytes = match finish_bundle(archive) {
        Err(e) => return Err(e),
        Ok(bytes) => bytes,
    };
    let mut name = chars_of(safe_filename(stem, "악보").as_str());
    push_text(&mut name, ".zip");
    let mut notice: Vec<char> = Vec::new();
    push_count(&mut notice, places.len() as u128);
    proof {
        assert(notice@ =~= number_text(places.len() as int));
    }
    push_text(&mut notice, "개 MMI 파일 다운로드");
    Ok(Download { name: string_of(&name), bytes, zipped: true, notice: string_of(&notice) })
}

/// The words for why files cannot be saved, some of which are scores.
pub open spec fn refusal(error: BundleError, files: int) -> Seq<char> {
    match error {
        BundleError::Empty => "저장할 MMI 파일이 없습니다"@,
        BundleError::NoName => number_text(files) + "개 파일을 묶지 못했습니다"@,
        BundleError::Start { reason } => number_text(files) + "개 파일을 묶지 못했습니다: "@ + reason@,
        BundleError::Write { reason } => "MMI 파일을 저장하지 못했습니다: "@ + reason@,
        BundleError::Finish { reason } => "ZIP 파일을 완성하지 못했습니다: "@ + reason@,
    }
}

impl BundleError {
    /// Says why files cannot be saved, some of which are scores.
    pub fn message(&self, files: usize) -> (text: String)
        ensures
            text@ == refusal(*self, files as int),
    {
        let mut text: Vec<char> = Vec::new();
        match self {
            BundleError::Empty => {
                text = chars_of("저장할 MMI 파일이 없습니다");
            },
            BundleError::NoName => {
                push_count(&mut text, files as u128);
                proof {
                    assert(text@ =~= number_text(files as int));
                }
                push_text(&mut text, "개 파일을 묶지 못했습니다");
            },
            BundleError::Start { reason } => {
                push_count(&mut text, files as u128);
                proof {
                    assert(text@ =~= number_text(files as int));
                }
                push_text(&mut text, "개 파일을 묶지 못했습니다: ");
                push_text(&mut text, reason.as_str());
            },
            BundleError::Write { reason } => {
                text = chars_of("MMI 파일을 저장하지 못했습니다: ");
                push_text(&mut text, reason.as_str());
            },
            BundleError::Finish { reason } => {
                text = chars_of("ZIP 파일을 완성하지 못했습니다: ");
                push_text(&mut text, reason.as_str());
            },
        }
        string_of(&text)
    }
}

proof fn lemma_score_files(names: Seq<Seq<char>>, n: int)
    requires
        0 <= n <= names.len() <= usize::MAX,
    ensures
        forall|k: int|
            0 <= k < score_files(names, n).len() ==> (#[trigger] score_files(names, n)[k]) < n,
    decreases n,
{
    if n > 0 {
        lemma_score_files(names, n - 1);
        let before = score_files(names, n - 1);
        let all = score_files(names, n);
        assert forall|k: int| 0 <= k < all.len() implies (#[trigger] all[k]) < n by {
            if k < before.len() {
                assert(all[k] == before[k]);
            }
        }
    }
}

proof fn lemma_bundle_fails(artifacts: Seq<Artifact>, places: Seq<usize>, from: int, to: int)
    requires
        0 <= from <= to,
        bundled(artifacts, places, from) is None,
    ensures
        bundled(artifacts, places, to) is None,
    decreases to - from,
{
    if from < to {
        lemma_bundle_fails(artifacts, places, from, to - 1);
    }
}

proof fn lemma_bundled_prefix(artifacts: Seq<Artifact>, places: Seq<usize>, from: int, to: int)
    requires
        0 <= from <= to,
        bundled(artifacts, places, to) is Some,
    ensures
        bundled(artifacts, places, from) is Some,
        bundled(artifacts, places, from)->Some_0.len() == from,
        bundled(artifacts, places, to)->Some_0.len() == to,
        forall|i: int|
            0 <= i < from ==> #[trigger] bundled(artifacts, places, to)->Some_0[i] == bundled(
                artifacts,
                places,
                from,
            )->Some_0[i],
    decreases to - from,
{
    lemma_bundled_length(artifacts, places, to);
    if from < to {
        lemma_bundled_prefix(artifacts, places, from, to - 1);
    }
}

/// No two files of a bundle have one name, however it is written.
pub proof fn law_names_differ(artifacts: Seq<Artifact>, places: Seq<usize>, n: int, i: int, j: int)
    requires
        bundled(artifacts, places, n) is Some,
        0 <= i < j < n,
    ensures
        bundled(artifacts, places, n)->Some_0.len() == n,
        lowered(bundled(artifacts, places, n)->Some_0[i].0) != lowered(
            bundled(artifacts, places, n)->Some_0[j].0,
        ),
    decreases n,
{
    lemma_bundled_length(artifacts, places, n - 1);
    let before = bundled(artifacts, places, n - 1)->Some_0;
    if j < n - 1 {
        law_names_differ(artifacts, places, n - 1, i, j);
    } else {
        let a = artifacts[places[n - 1] as int];
        let taken = taken_names(before);
        lemma_free_name(taken, safe_name(a.name@, nameless(n - 1)), n - 1, before.len());
        assert(taken[i] == lowered(before[i].0));
    }
}

proof fn lemma_bundled_length(artifacts: Seq<Artifact>, places: Seq<usize>, n: int)
    requires
        bundled(artifacts, places, n) is Some,
        n >= 0,
    ensures
        bundled(artifacts, places, n)->Some_0.len() == n,
    decreases n,
{
    if n > 0 {
        lemma_bundled_length(artifacts, places, n - 1);
    }
}

proof fn lemma_free_name(taken: Seq<Seq<char>>, name: Seq<char>, index: int, tries: nat)
    ensures
        free_name(taken, name, index, tries) is Some ==> !taken.contains(
            lowered(free_name(taken, name, index, tries)->Some_0),
        ),
    decreases tries,
{
    if taken.contains(lowered(name)) && tries > 0 {
        lemma_free_name(taken, numbered_name(name, index), index, (tries - 1) as nat);
    }
}

} // verus!
