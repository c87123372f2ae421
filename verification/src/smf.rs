//! Standard MIDI Files as plain values.
use vstd::prelude::*;

verus! {

/// How the tracks of a file belong together.
#[derive(Clone, Copy, Debug, PartialEq, Eq, Structural)]
pub enum SmfFormat {
    SingleTrack,
    Parallel,
    Sequential,
}

/// What a tick of a file is: a fraction of a quarter note, or of one of some frames per second.
#[derive(Clone, Copy, Debug, PartialEq, Eq, Structural)]
pub enum SmfTiming {
    Metrical(u16),
    Timecode(u8, u8),
}

/// What happens in a file, as far as it matters to a score.
#[derive(Debug)]
pub enum SmfKind {
    NoteOn { channel: u8, key: u8, velocity: u8 },
    NoteOff { channel: u8, key: u8 },
    Program { channel: u8, program: u8 },
    Controller { channel: u8, controller: u8, value: u8 },
    Tempo { micros: u32 },
    TimeSignature { numerator: u8, power: u8 },
    TrackName { text: Vec<u8> },
    Port { port: u8 },
    Other,
}

/// What happens some ticks after what happened before it in its track.
#[derive(Debug)]
pub struct SmfEvent {
    pub delta: u32,
    pub kind: SmfKind,
}

/// A Standard MIDI File.
#[derive(Debug)]
pub struct SmfFile {
    pub format: SmfFormat,
    pub timing: SmfTiming,
    pub tracks: Vec<Vec<SmfEvent>>,
}

/// What happens in a file.
pub enum Happening {
    NoteOn(u8, u8, u8),
    NoteOff(u8, u8),
    Program(u8, u8),
    Controller(u8, u8, u8),
    Tempo(u32),
    TimeSignature(u8, u8),
    TrackName(Seq<u8>),
    Port(u8),
    Other,
}

impl View for SmfKind {
    type V = Happening;

    open spec fn view(&self) -> Happening {
        match self {
            SmfKind::NoteOn { channel, key, velocity } => Happening::NoteOn(
                *channel,
                *key,
                *velocity,
            ),
            SmfKind::NoteOff { channel, key } => Happening::NoteOff(*channel, *key),
            SmfKind::Program { channel, program } => Happening::Program(*channel, *program),
            SmfKind::Controller { channel, controller, value } => Happening::Controller(
                *channel,
                *controller,
                *value,
            ),
            SmfKind::Tempo { micros } => Happening::Tempo(*micros),
            SmfKind::TimeSignature { numerator, power } => Happening::TimeSignature(
                *numerator,
                *power,
            ),
            SmfKind::TrackName { text } => Happening::TrackName(text@),
            SmfKind::Port { port } => Happening::Port(*port),
            SmfKind::Other => Happening::Other,
        }
    }
}

/// The events of a track as their deltas and what happens.
pub open spec fn track_happenings(events: Seq<SmfEvent>) -> Seq<(u32, Happening)> {
    Seq::new(events.len(), |i: int| (events[i].delta, events[i].kind@))
}

/// What a file consists of.
pub struct SmfContent {
    pub format: SmfFormat,
    pub timing: SmfTiming,
    pub tracks: Seq<Seq<(u32, Happening)>>,
}

impl View for SmfFile {
    type V = SmfContent;

    open spec fn view(&self) -> SmfContent {
        SmfContent {
            format: self.format,
            timing: self.timing,
            tracks: Seq::new(self.tracks.len() as nat, |i: int| track_happenings(self.tracks@[i]@)),
        }
    }
}

/// What `midly::Smf::parse` reads out of the bytes of a file, or nothing where it fails.
pub uninterp spec fn parsed_smf(bytes: Seq<u8>) -> Option<SmfContent>;

/// Whether a chunk header `MThd` at a position, before some end, gives a frame rate of 128, whose
/// negation leaves the range of eight bits.
pub open spec fn odd_header_at(bytes: Seq<u8>, at: int, end: int) -> bool {
    &&& 0 <= at
    &&& at + 12 < end <= bytes.len()
    &&& bytes[at] == 77
    &&& bytes[at + 1] == 84
    &&& bytes[at + 2] == 104
    &&& bytes[at + 3] == 100
    &&& bytes[at + 12] == 128
}

/// The length of the chunk whose header stands at a position.
pub open spec fn chunk_len(bytes: Seq<u8>, at: int) -> int {
    bytes[at + 4] * 16777216 + bytes[at + 5] * 65536 + bytes[at + 6] * 256 + bytes[at + 7]
}

/// Where the first of the chunks from a position on stands that is such a header.
pub open spec fn odd_from(bytes: Seq<u8>, at: int, end: int) -> Option<int>
    decreases
            (if at < end {
                end - at
            } else {
                0
            }),
{
    if at < 0 || at + 8 > end || end > bytes.len() {
        None
    } else if odd_header_at(bytes, at, end) {
        Some(at)
    } else {
        odd_from(bytes, at + 8 + chunk_len(bytes, at), end)
    }
}

/// Whether bytes begin with the four of a text.
pub open spec fn begins_with_mark(bytes: Seq<u8>, a: u8, b: u8, c: u8, d: u8) -> bool {
    bytes.len() >= 4 && bytes[0] == a && bytes[1] == b && bytes[2] == c && bytes[3] == d
}

/// The length of the chunk of a wrapping file whose header stands at a position.
pub open spec fn wrapped_len(bytes: Seq<u8>, at: int) -> int {
    bytes[at + 7] * 16777216 + bytes[at + 6] * 65536 + bytes[at + 5] * 256 + bytes[at + 4]
}

pub open spec fn lesser(a: int, b: int) -> int {
    if a < b {
        a
    } else {
        b
    }
}

/// Where the first `data` chunk of a wrapping file, from a position on, begins and ends.
pub open spec fn data_from(bytes: Seq<u8>, at: int, end: int) -> Option<(int, int)>
    decreases
            (if at < end {
                end - at
            } else {
                0
            }),
{
    if at < 0 || at + 8 > end || end > bytes.len() {
        None
    } else {
        let len = wrapped_len(bytes, at);
        if bytes[at] == 100 && bytes[at + 1] == 97 && bytes[at + 2] == 116 && bytes[at + 3] == 97 {
            Some((at + 8, lesser(at + 8 + len, end)))
        } else {
            data_from(bytes, at + 8 + len + len % 2, end)
        }
    }
}

/// Where the chunks of a file begin and end: all of it is chunks, or the `data` chunk of a file
/// that wraps another.
pub open spec fn chunks_of(bytes: Seq<u8>) -> Option<(int, int)> {
    if begins_with_mark(bytes, 82, 73, 70, 70) {
        if bytes.len() < 12 {
            None
        } else {
            let end = lesser(8 + wrapped_len(bytes, 0), bytes.len() as int);
            if end < 12 || bytes[8] != 82 || bytes[9] != 77 || bytes[10] != 73 || bytes[11] != 68 {
                None
            } else {
                data_from(bytes, 12, end)
            }
        }
    } else if begins_with_mark(bytes, 77, 84, 104, 100) {
        Some((0, bytes.len() as int))
    } else {
        None
    }
}

/// Where the first header of a file stands whose frame rate cannot be negated.
pub open spec fn odd_place(bytes: Seq<u8>) -> Option<int> {
    match chunks_of(bytes) {
        Some((from, to)) => odd_from(bytes, from, to),
        None => None,
    }
}

/// What is read of a file: all of it, or what comes before a header whose frame rate cannot be
/// negated. Reading ends at such a header, as at any that is not one: where it is the first
/// there is nothing to read, and where it is a further one the tracks before it count.
pub open spec fn readable(bytes: Seq<u8>) -> Seq<u8> {
    match odd_place(bytes) {
        Some(at) => bytes.take(at),
        None => bytes,
    }
}

proof fn lemma_odd_place(bytes: Seq<u8>, at: int, end: int)
    requires
        odd_from(bytes, at, end) is Some,
    ensures
        at <= odd_from(bytes, at, end)->Some_0,
        odd_from(bytes, at, end)->Some_0 + 12 < end <= bytes.len(),
        0 <= at,
    decreases
            (if at < end {
                end - at
            } else {
                0
            }),
{
    if !odd_header_at(bytes, at, end) {
        lemma_odd_place(bytes, at + 8 + chunk_len(bytes, at), end);
    }
}

proof fn lemma_odd_cut(bytes: Seq<u8>, at: int, end: int, cut: int)
    requires
        odd_from(bytes, at, end) == Some(cut),
    ensures
        odd_from(bytes.take(cut), at, cut) is None,
    decreases
            (if at < end {
                end - at
            } else {
                0
            }),
{
    lemma_odd_place(bytes, at, end);
    let t = bytes.take(cut);
    if at < cut {
        let next = at + 8 + chunk_len(bytes, at);
        lemma_odd_place(bytes, next, end);
        lemma_odd_cut(bytes, next, end, cut);
        assert(chunk_len(t, at) == chunk_len(bytes, at));
        if odd_header_at(t, at, cut) {
            assert(odd_header_at(bytes, at, end));
        }
    }
}

proof fn lemma_data_cut(bytes: Seq<u8>, at: int, end: int, cut: int)
    requires
        data_from(bytes, at, end) is Some,
        data_from(bytes, at, end)->Some_0.0 <= cut <= data_from(bytes, at, end)->Some_0.1,
    ensures
        at + 8 <= data_from(bytes, at, end)->Some_0.0,
        data_from(bytes.take(cut), at, cut) == Some((data_from(bytes, at, end)->Some_0.0, cut)),
    decreases
            (if at < end {
                end - at
            } else {
                0
            }),
{
    lemma_data_range(bytes, at, end);
    let t = bytes.take(cut);
    let len = wrapped_len(bytes, at);
    if bytes[at] == 100 && bytes[at + 1] == 97 && bytes[at + 2] == 116 && bytes[at + 3] == 97 {
        assert(forall|k: int| at <= k < at + 8 ==> t[k] == bytes[k]);
        assert(wrapped_len(t, at) == len);
    } else {
        let next = at + 8 + len + len % 2;
        lemma_data_cut(bytes, next, end, cut);
        assert(0 <= len && 0 <= len % 2);
        assert(at + 8 <= cut);
        assert(forall|k: int| at <= k < at + 8 ==> t[k] == bytes[k]);
        assert(wrapped_len(t, at) == len);
        assert(data_from(t, at, cut) == data_from(t, next, cut));
    }
}

proof fn lemma_data_range(bytes: Seq<u8>, at: int, end: int)
    requires
        data_from(bytes, at, end) is Some,
    ensures
        at + 8 <= data_from(bytes, at, end)->Some_0.0 <= data_from(bytes, at, end)->Some_0.1 <= end,
    decreases
            (if at < end {
                end - at
            } else {
                0
            }),
{
    if !(bytes[at] == 100 && bytes[at + 1] == 97 && bytes[at + 2] == 116 && bytes[at + 3] == 97) {
        lemma_data_range(
            bytes,
            at + 8 + wrapped_len(bytes, at) + wrapped_len(bytes, at) % 2,
            end,
        );
    }
}

/// What is read of a file holds no header whose frame rate cannot be negated.
pub proof fn law_readable(bytes: Seq<u8>)
    ensures
        odd_place(readable(bytes)) is None,
{
    if odd_place(bytes) is Some {
        let (from, to) = chunks_of(bytes)->Some_0;
        let cut = odd_place(bytes)->Some_0;
        let t = bytes.take(cut);
        lemma_odd_place(bytes, from, to);
        lemma_odd_cut(bytes, from, to, cut);
        if begins_with_mark(bytes, 82, 73, 70, 70) {
            let end = lesser(8 + wrapped_len(bytes, 0), bytes.len() as int);
            lemma_data_range(bytes, 12, end);
            lemma_data_cut(bytes, 12, end, cut);
            assert(wrapped_len(t, 0) == wrapped_len(bytes, 0));
            assert(chunks_of(t) == Some((from, cut)));
        } else if cut > 0 {
            assert(cut >= 8) by {
                assert(!odd_header_at(bytes, 0, to));
                lemma_odd_place(bytes, 8 + chunk_len(bytes, 0), to);
            }
            assert(chunks_of(t) == Some((0int, cut)));
        }
    }
}

/// An event of a track as `midly` gives it.
#[verifier::external_type_specification]
#[verifier::external_body]
pub struct ExTrackEvent<'a>(midly::TrackEvent<'a>);

/// A message on a channel as `midly` gives it.
#[verifier::external_type_specification]
#[verifier::external_body]
pub struct ExMidiMessage(midly::MidiMessage);

/// Turns a message of `midly` into what happens, variant by variant. A part of [`read_smf`],
/// which says what comes of it.
#[verifier::external_body]
fn convert_message(channel: u8, message: midly::MidiMessage) -> (r: SmfKind) {
    match message {
        midly::MidiMessage::NoteOn { key, vel } =>
            SmfKind::NoteOn { channel, key: key.as_int(), velocity: vel.as_int() },
        midly::MidiMessage::NoteOff { key, .. } => SmfKind::NoteOff { channel, key: key.as_int() },
        midly::MidiMessage::ProgramChange { program } =>
            SmfKind::Program { channel, program: program.as_int() },
        midly::MidiMessage::Controller { controller, value } =>
            SmfKind::Controller { channel, controller: controller.as_int(), value: value.as_int() },
        _ => SmfKind::Other,
    }
}

/// Turns an event of `midly` into one of the library, variant by variant. A part of
/// [`read_smf`], which says what comes of it.
#[verifier::external_body]
fn convert_event(event: &midly::TrackEvent) -> (r: SmfEvent) {
    let kind = match event.kind {
        midly::TrackEventKind::Midi { channel, message } =>
            convert_message(channel.as_int(), message),
        midly::TrackEventKind::Meta(midly::MetaMessage::Tempo(value)) =>
            SmfKind::Tempo { micros: value.as_int() },
        midly::TrackEventKind::Meta(midly::MetaMessage::TimeSignature(numerator, power, _, _)) =>
            SmfKind::TimeSignature { numerator, power },
        midly::TrackEventKind::Meta(midly::MetaMessage::TrackName(text)) =>
            SmfKind::TrackName { text: text.to_vec() },
        midly::TrackEventKind::Meta(midly::MetaMessage::MidiPort(port)) =>
            SmfKind::Port { port: port.as_int() },
        _ => SmfKind::Other,
    };
    SmfEvent { delta: event.delta.as_int(), kind }
}

/// Reads a file with `midly::Smf::parse` and turns what it gives into plain values, one for
/// one. What comes out depends on the bytes alone; the words of the reason for a failure,
/// which `midly` words differently in different builds, are left unsaid. In builds that check
/// arithmetic `midly` cannot negate a frame rate of 128, so files with such headers, a further one
/// among them, are left out.
#[verifier::external_body]
fn read_smf(bytes: &[u8]) -> (r: Result<SmfFile, String>)
    requires
        odd_place(bytes@) is None,
    ensures
        match r {
            Ok(file) => parsed_smf(bytes@) == Some(file@),
            Err(_) => parsed_smf(bytes@) is None,
        },
{
    let smf = midly::Smf::parse(bytes).map_err(|error| error.to_string())?;
    let format = match smf.header.format {
        midly::Format::SingleTrack => SmfFormat::SingleTrack,
        midly::Format::Parallel => SmfFormat::Parallel,
        midly::Format::Sequential => SmfFormat::Sequential,
    };
    let timing = match smf.header.timing {
        midly::Timing::Metrical(ticks) => SmfTiming::Metrical(ticks.as_int()),
        midly::Timing::Timecode(fps, n) => SmfTiming::Timecode(fps.as_int(), n),
    };
    let tracks = smf.tracks.iter().map(|t| t.iter().map(convert_event).collect()).collect();
    Ok(SmfFile { format, timing, tracks })
}

fn is_odd_header(bytes: &[u8], at: usize, end: usize) -> (r: bool)
    requires
        at <= end <= bytes.len(),
    ensures
        r == odd_header_at(bytes@, at as int, end as int),
{
    end - at > 12 && bytes[at] == 77 && bytes[at + 1] == 84 && bytes[at + 2] == 104
        && bytes[at + 3] == 100 && bytes[at + 12] == 128
}

fn find_odd(bytes: &[u8], from: usize, end: usize) -> (r: Option<usize>)
    requires
        from <= end <= bytes.len(),
    ensures
        match r {
            Some(at) => odd_from(bytes@, from as int, end as int) == Some(at as int) && at
                <= bytes.len(),
            None => odd_from(bytes@, from as int, end as int) is None,
        },
{
    let mut at: usize = from;
    while end - at >= 8
        invariant
            at <= end <= bytes.len(),
            odd_from(bytes@, at as int, end as int) == odd_from(bytes@, from as int, end as int),
        decreases end - at,
    {
        if is_odd_header(bytes, at, end) {
            return Some(at);
        }
        let length: u64 = bytes[at + 4] as u64 * 16777216 + bytes[at + 5] as u64 * 65536 + bytes[at
            + 6] as u64 * 256 + bytes[at + 7] as u64;
        let rest: usize = end - at - 8;
        if length > rest as u64 {
            proof {
                assert(odd_from(bytes@, at + 8 + length, end as int) is None);
            }
            return None;
        }
        at = at + 8 + length as usize;
    }
    None
}

fn read_wrapped_len(bytes: &[u8], at: usize) -> (length: u64)
    requires
        at + 8 <= bytes.len(),
    ensures
        length == wrapped_len(bytes@, at as int),
        length <= 0xffff_ffff,
{
    bytes[at + 7] as u64 * 16777216 + bytes[at + 6] as u64 * 65536 + bytes[at + 5] as u64 * 256
        + bytes[at + 4] as u64
}

fn find_data(bytes: &[u8], end: usize) -> (r: Option<(usize, usize)>)
    requires
        12 <= end <= bytes.len(),
    ensures
        match r {
            Some((from, to)) => data_from(bytes@, 12, end as int) == Some((from as int, to as int))
                && from <= to <= bytes.len(),
            None => data_from(bytes@, 12, end as int) is None,
        },
{
    let mut at: usize = 12;
    while end - at >= 8
        invariant
            at <= end <= bytes.len(),
            data_from(bytes@, at as int, end as int) == data_from(bytes@, 12, end as int),
        decreases end - at,
    {
        let length = read_wrapped_len(bytes, at);
        let rest: usize = end - at - 8;
        if bytes[at] == 100 && bytes[at + 1] == 97 && bytes[at + 2] == 116 && bytes[at + 3] == 97 {
            let to: usize = if length < rest as u64 {
                at + 8 + length as usize
            } else {
                end
            };
            return Some((at + 8, to));
        }
        let whole: u64 = length + length % 2;
        if whole > rest as u64 {
            proof {
                assert(data_from(bytes@, at + 8 + whole, end as int) is None);
            }
            return None;
        }
        at = at + 8 + whole as usize;
    }
    None
}

fn find_chunks(bytes: &[u8]) -> (r: Option<(usize, usize)>)
    ensures
        match r {
            Some((from, to)) => chunks_of(bytes@) == Some((from as int, to as int)) && from <= to
                <= bytes.len(),
            None => chunks_of(bytes@) is None,
        },
{
    let n = bytes.len();
    if n >= 4 && bytes[0] == 82 && bytes[1] == 73 && bytes[2] == 70 && bytes[3] == 70 {
        if n < 12 {
            return None;
        }
        let length = read_wrapped_len(bytes, 0);
        let end: usize = if length < (n - 8) as u64 {
            8 + length as usize
        } else {
            n
        };
        if end < 12 || bytes[8] != 82 || bytes[9] != 77 || bytes[10] != 73 || bytes[11] != 68 {
            return None;
        }
        find_data(bytes, end)
    } else if n >= 4 && bytes[0] == 77 && bytes[1] == 84 && bytes[2] == 104 && bytes[3] == 100 {
        Some((0, n))
    } else {
        None
    }
}

/// Reads a Standard MIDI File. A header with a frame rate that cannot be negated is no more
/// readable than one with any other unknown rate, and what follows it is not read.
pub fn parse_smf(bytes: &[u8]) -> (r: Result<SmfFile, String>)
    ensures
        match r {
            Ok(file) => parsed_smf(readable(bytes@)) == Some(file@),
            Err(_) => parsed_smf(readable(bytes@)) is None,
        },
{
    proof {
        law_readable(bytes@);
    }
    let odd: Option<usize> = match find_chunks(bytes) {
        Some((from, to)) => find_odd(bytes, from, to),
        None => None,
    };
    match odd {
        Some(at) => read_smf(vstd::slice::slice_subrange(bytes, 0, at)),
        None => read_smf(bytes),
    }
}

} // verus!
