//! The MMI container: tracks of MML between lines that say something of the whole score.
use crate::meta::{entry_of, with_entry, Entry, Meta};
use crate::mml::{parse_part, read_part, MmlError};
use crate::score::{
    insert_tempos, part_views, track_views, with_all, Note, Score, ScoreView, Tempo, Track,
    TrackView,
};
use crate::text::{
    begins_with, chars_of, copy_chars, cut, find_char, has_prefix, joined, pieces, push_chars,
    push_text, same_chars, split_chars, string_of, string_views, trim, trimmed, views,
    without_back, without_front,
};
use vstd::prelude::*;
use vstd::utf8::encode_utf8;

verus! {

/// Which part of which track cannot be read, and why.
#[derive(Clone, Copy, Debug, PartialEq, Eq, Structural)]
pub struct TrackError {
    pub track: usize,
    pub part: usize,
    pub cause: MmlError,
}

/// Why a text is not a score.
#[derive(Debug)]
pub enum MmiError {
    Track { error: TrackError },
    TrackInTail,
    Metadata { line: String },
}

/// What is wrong with a text that is not a score.
pub enum MmiFault {
    Track(TrackError),
    TrackInTail,
    Metadata(Seq<char>),
}

impl View for MmiError {
    type V = MmiFault;

    open spec fn view(&self) -> MmiFault {
        match self {
            MmiError::Track { error } => MmiFault::Track(*error),
            MmiError::TrackInTail => MmiFault::TrackInTail,
            MmiError::Metadata { line } => MmiFault::Metadata(line@),
        }
    }
}

/// A character with an ASCII capital letter made small.
pub open spec fn lower_char(c: char) -> char {
    if 'A' <= c <= 'Z' {
        ((c as u32 + 32) as u8) as char
    } else {
        c
    }
}

/// Whether a text begins with the mark that opens a track's MML, in capital or small letters.
pub open spec fn has_mark(s: Seq<char>) -> bool {
    &&& s.len() >= 4
    &&& lower_char(s[0]) == 'm'
    &&& lower_char(s[1]) == 'm'
    &&& lower_char(s[2]) == 'l'
    &&& s[3] == '@'
}

/// The MML of a track without white space around it, between its opening and closing marks.
pub open spec fn normalized(mml: Seq<char>) -> Seq<char> {
    let text = trimmed(mml);
    let marked = if has_mark(text) {
        text
    } else {
        "MML@"@ + text
    };
    if marked.last() == ';' {
        marked
    } else {
        marked.push(';')
    }
}

/// The notes of the first parts, and the tempos of all of them together.
pub open spec fn read_parts(texts: Seq<Seq<char>>, track: usize, n: int) -> Result<
    (Seq<Seq<Note>>, Seq<Tempo>),
    TrackError,
>
    decreases n,
{
    if n <= 0 {
        Ok((Seq::empty(), Seq::empty()))
    } else {
        match read_parts(texts, track, n - 1) {
            Err(e) => Err(e),
            Ok((parts, tempos)) => match read_part(
                encode_utf8(texts[n - 1]),
                (track, (n - 1) as usize),
            ) {
                Err(cause) => Err(TrackError { track, part: (n - 1) as usize, cause }),
                Ok(part) => Ok((parts.push(part.notes), with_all(tempos, part.tempos))),
            },
        }
    }
}

/// The track that some MML writes.
pub open spec fn track_of(mml: Seq<char>, meta: Seq<Entry>, index: usize) -> Result<
    TrackView,
    TrackError,
> {
    let text = normalized(mml);
    let texts = pieces(text, ',');
    match read_parts(texts, index, texts.len() as int) {
        Err(e) => Err(e),
        Ok((parts, tempos)) => Ok(TrackView { mml: text, meta, parts, tempos }),
    }
}

pub(crate) fn lowercase(c: char) -> (r: char)
    ensures
        r == lower_char(c),
{
    if c >= 'A' && c <= 'Z' {
        (c as u8 + 32) as char
    } else {
        c
    }
}

fn normalize(mml: &str) -> (r: Vec<char>)
    ensures
        r@ == normalized(mml@),
{
    let text = trim(&chars_of(mml));
    let marked: bool = text.len() >= 4 && lowercase(text[0]) == 'm' && lowercase(text[1]) == 'm'
        && lowercase(text[2]) == 'l' && text[3] == '@';
    let mut r: Vec<char> = Vec::new();
    proof {
        reveal_strlit("MML@");
    }
    if !marked {
        push_text(&mut r, "MML@");
    }
    push_chars(&mut r, &text);
    proof {
        assert(r@ =~= (if has_mark(text@) {
            text@
        } else {
            "MML@"@ + text@
        }));
    }
    if r[r.len() - 1] != ';' {
        r.push(';');
    }
    r
}

/// Reads the parts of a track's MML.
pub fn track_from_mml(mml: String, meta: Meta, track_index: usize) -> (r: Result<
    Track,
    TrackError,
>)
    ensures
        match r {
            Ok(track) => track_of(mml@, meta@, track_index) == Ok::<TrackView, TrackError>(track@),
            Err(e) => track_of(mml@, meta@, track_index) == Err::<TrackView, TrackError>(e),
        },
{
    let text = normalize(mml.as_str());
    let texts = split_chars(&text, ',');
    let mut parts: Vec<Vec<Note>> = Vec::new();
    let mut tempos: Vec<Tempo> = Vec::new();
    let mut i: usize = 0;
    let ghost whole = read_parts(views(texts@), track_index, texts.len() as int);
    proof {
        assert(part_views(parts@) =~= Seq::<Seq<Note>>::empty());
        lemma_parts_fail(views(texts@), track_index, 0, texts.len() as int);
    }
    while i < texts.len()
        invariant
            i <= texts.len(),
            whole == read_parts(views(texts@), track_index, texts.len() as int),
            whole is Err ==> track_of(mml@, meta@, track_index) == Err::<TrackView, TrackError>(
                whole->Err_0,
            ),
            read_parts(views(texts@), track_index, i as int) == Ok::<_, TrackError>(
                (part_views(parts@), tempos@),
            ),
        decreases texts.len() - i,
    {
        let piece = string_of(&texts[i]);
        match parse_part(piece.as_str(), (track_index, i)) {
            Err(cause) => {
                proof {
                    lemma_parts_fail(views(texts@), track_index, i + 1, texts.len() as int);
                }
                return Err(TrackError { track: track_index, part: i, cause });
            },
            Ok((notes, part_tempos, _)) => {
                let ghost before = part_views(parts@);
                let ghost list = notes@;
                parts.push(notes);
                proof {
                    assert(part_views(parts@) =~= before.push(list));
                }
                insert_tempos(&mut tempos, &part_tempos);
            },
        }
        i += 1;
    }
    Ok(Track { mml: string_of(&text), meta, parts, tempos })
}

proof fn lemma_parts_fail(texts: Seq<Seq<char>>, track: usize, from: int, to: int)
    requires
        0 <= from <= to,
    ensures
        read_parts(texts, track, from) is Err ==> read_parts(texts, track, to) == read_parts(
            texts,
            track,
            from,
        ),
    decreases to - from,
{
    if from < to {
        lemma_parts_fail(texts, track, from, to - 1);
    }
}

/// What has been gathered of a score, line by line.
#[verifier::ext_equal]
pub struct Gathered {
    pub head: Seq<Seq<char>>,
    pub tracks: Seq<TrackView>,
    pub tail: Seq<Seq<char>>,
    /// The MML and the entries of a track that is not complete yet.
    pub current: Option<(Seq<char>, Seq<Entry>)>,
    /// Whether there has been a track.
    pub seen: bool,
    /// Whether a section behind the tracks has begun.
    pub in_tail: bool,
}

pub open spec fn nothing_gathered() -> Gathered {
    Gathered {
        head: Seq::empty(),
        tracks: Seq::empty(),
        tail: Seq::empty(),
        current: None,
        seen: false,
        in_tail: false,
    }
}

/// The track that is not complete yet completed.
pub open spec fn completed(g: Gathered) -> Result<Gathered, MmiFault> {
    match g.current {
        None => Ok(g),
        Some((mml, meta)) => match track_of(mml, meta, g.tracks.len() as usize) {
            Err(e) => Err(MmiFault::Track(e)),
            Ok(track) => Ok(Gathered { tracks: g.tracks.push(track), current: None, ..g }),
        },
    }
}

/// What one more line makes of what has been gathered.
pub open spec fn with_next(g: Gathered, line: Seq<char>) -> Result<Gathered, MmiFault> {
    if begins_with(line, "mml-track="@) {
        match completed(g) {
            Err(e) => Err(e),
            Ok(done) => if g.in_tail {
                Err(MmiFault::TrackInTail)
            } else {
                Ok(
                    Gathered {
                        current: Some((line.skip("mml-track="@.len() as int), Seq::empty())),
                        seen: true,
                        ..done
                    },
                )
            },
        }
    } else if g.seen && line.len() > 0 && line[0] == '[' {
        match completed(g) {
            Err(e) => Err(e),
            Ok(done) => Ok(Gathered { in_tail: true, tail: g.tail.push(line), ..done }),
        }
    } else {
        match g.current {
            Some((mml, meta)) => match cut(line, '=') {
                Some((key, value)) => {
                    let noted = Gathered {
                        current: Some((mml, with_entry(meta, key, value))),
                        ..g
                    };
                    if key == "visible"@ {
                        completed(noted)
                    } else {
                        Ok(noted)
                    }
                },
                None => if line.len() == 0 {
                    Ok(g)
                } else {
                    Err(MmiFault::Metadata(line))
                },
            },
            None => if g.seen {
                Ok(Gathered { tail: g.tail.push(line), ..g })
            } else {
                Ok(Gathered { head: g.head.push(line), ..g })
            },
        }
    }
}

/// What the first lines make up.
pub open spec fn gathered(lines: Seq<Seq<char>>, n: int) -> Result<Gathered, MmiFault>
    decreases n,
{
    if n <= 0 {
        Ok(nothing_gathered())
    } else {
        match gathered(lines, n - 1) {
            Err(e) => Err(e),
            Ok(g) => with_next(g, lines[n - 1]),
        }
    }
}

/// The lines of a text: without byte order marks in front and carriage feeds at their ends.
pub open spec fn lines_of(raw: Seq<char>) -> Seq<Seq<char>> {
    let text = without_front(raw, |c: char| c == '\u{feff}');
    pieces(text, '\n').map_values(|line: Seq<char>| without_back(line, |c: char| c == '\r'))
}

/// The score that lines make up.
pub open spec fn score_of_lines(lines: Seq<Seq<char>>) -> Result<ScoreView, MmiFault> {
    match gathered(lines, lines.len() as int) {
        Err(e) => Err(e),
        Ok(g) => match completed(g) {
            Err(e) => Err(e),
            Ok(done) => Ok(ScoreView { head: done.head, tracks: done.tracks, tail: done.tail }),
        },
    }
}

/// The score that a text writes.
pub open spec fn score_of(raw: Seq<char>) -> Result<ScoreView, MmiFault> {
    score_of_lines(lines_of(raw))
}

/// What has been gathered of a score, line by line.
struct Gatherer {
    score: Score,
    current: Option<(String, Meta)>,
    seen: bool,
    in_tail: bool,
}

impl View for Gatherer {
    type V = Gathered;

    closed spec fn view(&self) -> Gathered {
        Gathered {
            head: self.score@.head,
            tracks: self.score@.tracks,
            tail: self.score@.tail,
            current: match self.current {
                Some((mml, meta)) => Some((mml@, meta@)),
                None => None,
            },
            seen: self.seen,
            in_tail: self.in_tail,
        }
    }
}

impl Gatherer {
    fn complete(&mut self) -> (r: Result<(), MmiError>)
        ensures
            match r {
                Ok(_) => completed(old(self)@) == Ok::<Gathered, MmiFault>(final(self)@),
                Err(e) => completed(old(self)@) == Err::<Gathered, MmiFault>(e@),
            },
    {
        let current = self.current.take();
        match current {
            None => Ok(()),
            Some((mml, meta)) => match track_from_mml(mml, meta, self.score.tracks.len()) {
                Err(error) => Err(MmiError::Track { error }),
                Ok(track) => {
                    let ghost before = track_views(self.score.tracks@);
                    let ghost added = track@;
                    self.score.tracks.push(track);
                    proof {
                        assert(track_views(self.score.tracks@) =~= before.push(added));
                    }
                    Ok(())
                },
            },
        }
    }

    fn push_tail(&mut self, line: &Vec<char>)
        ensures
            final(self)@ == (Gathered { tail: old(self)@.tail.push(line@), ..old(self)@ }),
    {
        let ghost before = string_views(self.score.tail@);
        self.score.tail.push(string_of(line));
        proof {
            assert(string_views(self.score.tail@) =~= before.push(line@));
        }
    }

    fn take_line(&mut self, line: &Vec<char>) -> (r: Result<(), MmiError>)
        ensures
            match r {
                Ok(_) => with_next(old(self)@, line@) == Ok::<Gathered, MmiFault>(final(self)@),
                Err(e) => with_next(old(self)@, line@) == Err::<Gathered, MmiFault>(e@),
            },
    {
        let prefix = chars_of("mml-track=");
        if has_prefix(line, &prefix) {
            match self.complete() {
                Err(e) => {
                    return Err(e);
                },
                Ok(_) => {},
            }
            if self.in_tail {
                return Err(MmiError::TrackInTail);
            }
            let mml = copy_chars(line, prefix.len(), line.len());
            proof {
                assert(mml@ =~= line@.skip("mml-track="@.len() as int));
            }
            self.current = Some((string_of(&mml), Meta::new()));
            self.seen = true;
            return Ok(());
        }
        if self.seen && line.len() > 0 && line[0] == '[' {
            match self.complete() {
                Err(e) => {
                    return Err(e);
                },
                Ok(_) => {},
            }
            self.in_tail = true;
            self.push_tail(line);
            return Ok(());
        }
        let current = self.current.take();
        match current {
            Some((mml, mut meta)) => {
                let equals = find_char(line, '=', 0);
                if equals == line.len() {
                    self.current = Some((mml, meta));
                    if line.len() == 0 {
                        Ok(())
                    } else {
                        Err(MmiError::Metadata { line: string_of(line) })
                    }
                } else {
                    let key = copy_chars(line, 0, equals);
                    let value = copy_chars(line, equals + 1, line.len());
                    proof {
                        assert(key@ =~= line@.take(equals as int));
                        assert(value@ =~= line@.skip(equals + 1));
                    }
                    meta.insert(string_of(&key), string_of(&value));
                    self.current = Some((mml, meta));
                    if same_chars(&key, &chars_of("visible")) {
                        self.complete()
                    } else {
                        Ok(())
                    }
                }
            },
            None => {
                if self.seen {
                    self.push_tail(line);
                } else {
                    let ghost before = string_views(self.score.head@);
                    self.score.head.push(string_of(line));
                    proof {
                        assert(string_views(self.score.head@) =~= before.push(line@));
                    }
                }
                Ok(())
            },
        }
    }
}

proof fn lemma_gathering_fails(lines: Seq<Seq<char>>, from: int, to: int)
    requires
        0 <= from <= to,
    ensures
        gathered(lines, from) is Err ==> gathered(lines, to) == gathered(lines, from),
    decreases to - from,
{
    if from < to {
        lemma_gathering_fails(lines, from, to - 1);
    }
}

fn split_lines(raw: &str) -> (lines: Vec<Vec<char>>)
    ensures
        views(lines@) == lines_of(raw@),
{
    let chars = chars_of(raw);
    let ghost marks = |c: char| c == '\u{feff}';
    let ghost feeds = |c: char| c == '\r';
    let mut from: usize = 0;
    proof {
        assert(raw@.skip(0) =~= raw@);
    }
    while from < chars.len() && chars[from] == '\u{feff}'
        invariant
            from <= chars.len(),
            chars@ == raw@,
            marks == (|c: char| c == '\u{feff}'),
            without_front(raw@.skip(from as int), marks) == without_front(raw@, marks),
        decreases chars.len() - from,
    {
        proof {
            assert(raw@.skip(from as int)[0] == raw@[from as int]);
            assert(raw@.skip(from as int).skip(1) =~= raw@.skip(from + 1));
        }
        from += 1;
    }
    proof {
        if from < chars.len() {
            assert(raw@.skip(from as int)[0] == raw@[from as int]);
        }
    }
    let text = copy_chars(&chars, from, chars.len());
    proof {
        assert(text@ =~= raw@.skip(from as int));
    }
    let found = split_chars(&text, '\n');
    let ghost strip = |line: Seq<char>| without_back(line, |c: char| c == '\r');
    let mut lines: Vec<Vec<char>> = Vec::new();
    let mut i: usize = 0;
    while i < found.len()
        invariant
            i <= found.len(),
            feeds == (|c: char| c == '\r'),
            strip == (|line: Seq<char>| without_back(line, |c: char| c == '\r')),
            views(lines@) == views(found@).take(i as int).map_values(strip),
        decreases found.len() - i,
    {
        let mut line = copy_chars(&found[i], 0, found[i].len());
        proof {
            assert(line@ =~= found@[i as int]@);
        }
        while line.len() > 0 && line[line.len() - 1] == '\r'
            invariant
                i < found.len(),
                feeds == (|c: char| c == '\r'),
                without_back(line@, feeds) == without_back(found@[i as int]@, feeds),
            decreases line.len(),
        {
            let last = line.pop();
        }
        let ghost before = views(lines@);
        proof {
            assert(line@ == strip(views(found@)[i as int]));
        }
        let ghost stripped = line@;
        lines.push(line);
        i += 1;
        proof {
            assert(views(lines@) =~= before.push(stripped));
            assert(views(lines@) =~= views(found@).take(i as int).map_values(strip));
        }
    }
    proof {
        assert(views(found@).take(i as int) =~= views(found@));
    }
    lines
}

/// Reads the tracks of a score and the lines before and behind them.
pub fn parse_mmi(raw: &str) -> (r: Result<Score, MmiError>)
    ensures
        match r {
            Ok(score) => score_of(raw@) == Ok::<ScoreView, MmiFault>(score@),
            Err(e) => score_of(raw@) == Err::<ScoreView, MmiFault>(e@),
        },
{
    let lines = split_lines(raw);
    let mut gatherer = Gatherer {
        score: Score::default(),
        current: None,
        seen: false,
        in_tail: false,
    };
    let ghost all = lines_of(raw@);
    proof {
        assert(gatherer@ =~= nothing_gathered());
    }
    let mut i: usize = 0;
    while i < lines.len()
        invariant
            i <= lines.len(),
            all == views(lines@),
            all == lines_of(raw@),
            gathered(all, i as int) == Ok::<Gathered, MmiFault>(gatherer@),
        decreases lines.len() - i,
    {
        match gatherer.take_line(&lines[i]) {
            Err(e) => {
                proof {
                    lemma_gathering_fails(all, i + 1, lines.len() as int);
                }
                return Err(e);
            },
            Ok(_) => {},
        }
        i += 1;
    }
    match gatherer.complete() {
        Err(e) => Err(e),
        Ok(_) => Ok(gatherer.score),
    }
}

/// The line of an entry.
pub open spec fn entry_line(key: Seq<char>, value: Seq<char>) -> Seq<char> {
    key + seq!['='] + value
}

/// The keys whose entries have a place of their own.
pub open spec fn is_placed(key: Seq<char>) -> bool {
    key == "name"@ || key == "program"@ || key == "songProgram"@ || key == "panpot"@ || key
        == "visible"@
}

/// Entries with the one under a key behind them, where there is one.
pub open spec fn and_under(
    list: Seq<Entry>,
    meta: Seq<Entry>,
    key: Seq<char>,
) -> Seq<Entry> {
    match entry_of(meta, key) {
        Some(value) => list.push((key, value)),
        None => list,
    }
}

/// The entries that have no place of their own.
pub open spec fn others(meta: Seq<Entry>) -> Seq<Entry>
    decreases meta.len(),
{
    if meta.len() == 0 {
        Seq::empty()
    } else if is_placed(meta.last().0) {
        others(meta.drop_last())
    } else {
        others(meta.drop_last()).push(meta.last())
    }
}

/// The entries of a track in the order in which they are written.
pub open spec fn written_order(meta: Seq<Entry>) -> Seq<Entry> {
    let front = and_under(
        and_under(
            and_under(and_under(Seq::empty(), meta, "name"@), meta, "program"@),
            meta,
            "songProgram"@,
        ),
        meta,
        "panpot"@,
    );
    and_under(front + others(meta), meta, "visible"@)
}

/// The lines of a track: its MML and then its entries.
pub open spec fn track_lines(track: TrackView) -> Seq<Seq<char>> {
    seq!["mml-track="@ + track.mml] + written_order(track.meta).map_values(
        |e: Entry| entry_line(e.0, e.1),
    )
}

/// The lines of the first tracks.
pub open spec fn tracks_lines(tracks: Seq<TrackView>, n: int) -> Seq<Seq<char>>
    decreases n,
{
    if n <= 0 {
        Seq::empty()
    } else {
        tracks_lines(tracks, n - 1) + track_lines(tracks[n - 1])
    }
}

/// The lines of a score.
pub open spec fn score_lines(score: ScoreView) -> Seq<Seq<char>> {
    score.head + tracks_lines(score.tracks, score.tracks.len() as int) + score.tail
}

/// The text of a score.
pub open spec fn score_text(score: ScoreView) -> Seq<char> {
    joined(score_lines(score), '\n')
}

fn push_line(out: &mut Vec<char>, first: &mut bool, line: &[char], Ghost(lines): Ghost<
    Seq<Seq<char>>,
>)
    requires
        old(out)@ == joined(lines, '\n'),
        *old(first) == (lines.len() == 0),
    ensures
        final(out)@ == joined(lines.push(line@), '\n'),
        *final(first) == false,
{
    if *first {
        *first = false;
        push_chars(out, line);
        proof {
            assert(out@ =~= line@);
        }
    } else {
        out.push('\n');
        push_chars(out, line);
        proof {
            assert(lines.push(line@).drop_last() =~= lines);
            assert(out@ =~= joined(lines, '\n') + seq!['\n'] + line@);
        }
    }
}

fn push_entry(
    out: &mut Vec<char>,
    first: &mut bool,
    key: &str,
    value: &str,
    Ghost(lines): Ghost<Seq<Seq<char>>>,
)
    requires
        old(out)@ == joined(lines, '\n'),
        *old(first) == (lines.len() == 0),
    ensures
        final(out)@ == joined(lines.push(entry_line(key@, value@)), '\n'),
        *final(first) == false,
{
    let mut line = chars_of(key);
    line.push('=');
    push_text(&mut line, value);
    proof {
        assert(line@ =~= entry_line(key@, value@));
    }
    push_line(out, first, &line, Ghost(lines));
}

fn placed(key: &str) -> (r: bool)
    ensures
        r == is_placed(key@),
{
    let chars = chars_of(key);
    same_chars(&chars, &chars_of("name")) || same_chars(&chars, &chars_of("program"))
        || same_chars(&chars, &chars_of("songProgram")) || same_chars(&chars, &chars_of("panpot"))
        || same_chars(&chars, &chars_of("visible"))
}

spec fn with_entries(lines: Seq<Seq<char>>, entries: Seq<Entry>) -> Seq<Seq<char>> {
    lines + entries.map_values(|e: Entry| entry_line(e.0, e.1))
}

proof fn lemma_with_entries_push(lines: Seq<Seq<char>>, entries: Seq<Entry>, e: Entry)
    ensures
        with_entries(lines, entries.push(e)) == with_entries(lines, entries).push(
            entry_line(e.0, e.1),
        ),
{
    assert(with_entries(lines, entries.push(e)) =~= with_entries(lines, entries).push(
        entry_line(e.0, e.1),
    ));
}

fn push_under(
    out: &mut Vec<char>,
    first: &mut bool,
    meta: &Meta,
    key: &str,
    Ghost(lines): Ghost<Seq<Seq<char>>>,
    Ghost(entries): Ghost<Seq<Entry>>,
)
    requires
        old(out)@ == joined(with_entries(lines, entries), '\n'),
        !*old(first),
        lines.len() > 0,
    ensures
        final(out)@ == joined(with_entries(lines, and_under(entries, meta@, key@)), '\n'),
        !*final(first),
{
    match meta.get(key) {
        Some(value) => {
            push_entry(out, first, key, value.as_str(), Ghost(with_entries(lines, entries)));
            proof {
                lemma_with_entries_push(lines, entries, (key@, value@));
            }
        },
        None => {},
    }
}

fn push_track(out: &mut Vec<char>, first: &mut bool, track: &Track, Ghost(lines): Ghost<
    Seq<Seq<char>>,
>)
    requires
        old(out)@ == joined(lines, '\n'),
        *old(first) == (lines.len() == 0),
    ensures
        final(out)@ == joined(lines + track_lines(track@), '\n'),
        !*final(first),
{
    let mut line = chars_of("mml-track=");
    push_text(&mut line, track.mml.as_str());
    let ghost opened = lines.push("mml-track="@ + track.mml@);
    push_line(out, first, &line, Ghost(lines));
    let meta = &track.meta;
    let ghost none = Seq::<Entry>::empty();
    proof {
        assert(with_entries(opened, none) =~= opened);
    }
    push_under(out, first, meta, "name", Ghost(opened), Ghost(none));
    let ghost e1 = and_under(none, meta@, "name"@);
    push_under(out, first, meta, "program", Ghost(opened), Ghost(e1));
    let ghost e2 = and_under(e1, meta@, "program"@);
    push_under(out, first, meta, "songProgram", Ghost(opened), Ghost(e2));
    let ghost e3 = and_under(e2, meta@, "songProgram"@);
    push_under(out, first, meta, "panpot", Ghost(opened), Ghost(e3));
    let ghost e4 = and_under(e3, meta@, "panpot"@);
    let count = meta.len();
    let mut i: usize = 0;
    proof {
        assert(meta@.take(0) =~= none);
        assert(e4 + others(meta@.take(0)) =~= e4);
    }
    while i < count
        invariant
            i <= count == meta@.len(),
            opened.len() > 0,
            !*first,
            out@ == joined(with_entries(opened, e4 + others(meta@.take(i as int))), '\n'),
        decreases count - i,
    {
        let (key, value) = meta.entry(i);
        let ghost before = e4 + others(meta@.take(i as int));
        proof {
            assert(meta@.take(i + 1).drop_last() =~= meta@.take(i as int));
        }
        if !placed(key.as_str()) {
            push_entry(
                out,
                first,
                key.as_str(),
                value.as_str(),
                Ghost(with_entries(opened, before)),
            );
            proof {
                lemma_with_entries_push(opened, before, (key@, value@));
                assert(before.push((key@, value@)) =~= e4 + others(meta@.take(i + 1)));
            }
        }
        i += 1;
    }
    proof {
        assert(meta@.take(i as int) =~= meta@);
    }
    push_under(out, first, meta, "visible", Ghost(opened), Ghost(e4 + others(meta@)));
    proof {
        assert(with_entries(opened, written_order(meta@)) =~= lines + track_lines(track@));
    }
}

/// Writes a score as text.
pub fn serialize_mmi(score: &Score) -> (text: String)
    ensures
        text@ == score_text(score@),
{
    let mut out: Vec<char> = Vec::new();
    let mut first: bool = true;
    let ghost mut lines = Seq::<Seq<char>>::empty();
    let mut i: usize = 0;
    proof {
        assert(out@ =~= joined(lines, '\n'));
        assert(score@.head.take(0) =~= lines);
    }
    while i < score.head.len()
        invariant
            i <= score.head.len(),
            lines == score@.head.take(i as int),
            out@ == joined(lines, '\n'),
            first == (lines.len() == 0),
        decreases score.head.len() - i,
    {
        push_line(&mut out, &mut first, &chars_of(score.head[i].as_str()), Ghost(lines));
        proof {
            lines = lines.push(score.head[i as int]@);
            assert(lines =~= score@.head.take(i + 1));
        }
        i += 1;
    }
    proof {
        assert(lines =~= score@.head);
        assert(lines + tracks_lines(score@.tracks, 0) =~= lines);
    }
    let mut i: usize = 0;
    while i < score.tracks.len()
        invariant
            i <= score.tracks.len(),
            lines == score@.head + tracks_lines(score@.tracks, i as int),
            out@ == joined(lines, '\n'),
            first == (lines.len() == 0),
        decreases score.tracks.len() - i,
    {
        push_track(&mut out, &mut first, &score.tracks[i], Ghost(lines));
        proof {
            let more = track_lines(score.tracks[i as int]@);
            assert(lines + more =~= score@.head + tracks_lines(score@.tracks, i + 1));
            lines = lines + more;
        }
        i += 1;
    }
    let ghost base = lines;
    let mut i: usize = 0;
    proof {
        assert(base + score@.tail.take(0) =~= base);
    }
    while i < score.tail.len()
        invariant
            i <= score.tail.len(),
            lines == base + score@.tail.take(i as int),
            out@ == joined(lines, '\n'),
            first == (lines.len() == 0),
        decreases score.tail.len() - i,
    {
        push_line(&mut out, &mut first, &chars_of(score.tail[i].as_str()), Ghost(lines));
        proof {
            lines = lines.push(score.tail[i as int]@);
            assert(lines =~= base + score@.tail.take(i + 1));
        }
        i += 1;
    }
    proof {
        assert(lines =~= score_lines(score@));
    }
    string_of(&out)
}

} // verus!
