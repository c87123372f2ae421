//! The lines before and behind the tracks of a score that is cut between two ticks.
use crate::chunk::{local_tempos, rebase_tempos};
use crate::score::{Tempo, Tick};
use crate::text::{
    begins_with, chars_of, copy_chars, cut, find_char, has_prefix, integer_of, join_strings, joined,
    number_text, parse_i64, push_chars, push_number, push_text, same_chars, string_of,
    string_views, trim, trimmed,
};
use vstd::prelude::*;

verus! {

/// The tick from which a time signature applies, and how it is written.
pub type Signature = (Tick, Seq<char>);

/// Whether a text writes a positive number of 32 bits without a minus sign.
pub open spec fn is_positive(s: Seq<char>) -> bool {
    &&& s.len() > 0
    &&& s[0] != '-'
    &&& integer_of(s) matches Some(n) && 0 < n <= u32::MAX
}

/// The time signature that a line such as `384=3/4` writes.
pub open spec fn signature_of(line: Seq<char>) -> Option<Signature> {
    match cut(line, '=') {
        None => None,
        Some((tick, sig)) => match (integer_of(tick), cut(sig, '/')) {
            (Some(t), Some((num, den))) => if 0 <= t <= i64::MAX && is_positive(num)
                && is_positive(den) {
                Some((t as Tick, sig))
            } else {
                None
            },
            _ => None,
        },
    }
}

/// Time signatures with one more, in place of the one at its tick; the ticks ascend.
pub open spec fn with_signature(sigs: Seq<Signature>, new: Signature) -> Seq<Signature>
    decreases sigs.len(),
{
    if sigs.len() == 0 || sigs.last().0 < new.0 {
        sigs.push(new)
    } else if sigs.last().0 == new.0 {
        sigs.drop_last().push(new)
    } else {
        with_signature(sigs.drop_last(), new).push(sigs.last())
    }
}

pub open spec fn is_section(line: Seq<char>) -> bool {
    trimmed(line).len() > 0 && trimmed(line)[0] == '['
}

pub open spec fn is_signatures(line: Seq<char>) -> bool {
    trimmed(line) == "[time-signature]"@
}

/// Whether the last section that begins in the first lines is that of the time signatures.
pub open spec fn among_signatures(lines: Seq<Seq<char>>, n: int) -> bool
    decreases n,
{
    if n <= 0 {
        false
    } else if is_section(lines[n - 1]) {
        is_signatures(lines[n - 1])
    } else {
        among_signatures(lines, n - 1)
    }
}

/// The time signatures that the first lines write.
pub open spec fn signatures_of(lines: Seq<Seq<char>>, n: int) -> Seq<Signature>
    decreases n,
{
    if n <= 0 {
        Seq::empty()
    } else {
        let before = signatures_of(lines, n - 1);
        let line = lines[n - 1];
        if !is_section(line) && among_signatures(lines, n - 1) {
            match signature_of(trimmed(line)) {
                Some(new) => with_signature(before, new),
                None => before,
            }
        } else {
            before
        }
    }
}

/// The time signature that applies at a tick.
pub open spec fn signature_at(sigs: Seq<Signature>, tick: int) -> Seq<char>
    decreases sigs.len(),
{
    if sigs.len() == 0 {
        "4/4"@
    } else if sigs.last().0 <= tick {
        sigs.last().1
    } else {
        signature_at(sigs.drop_last(), tick)
    }
}

/// The lines of the time signatures strictly between two ticks, counted from the first.
pub open spec fn inner_signatures(sigs: Seq<Signature>, a: int, b: int) -> Seq<Seq<char>>
    decreases sigs.len(),
{
    if sigs.len() == 0 {
        Seq::empty()
    } else {
        let before = inner_signatures(sigs.drop_last(), a, b);
        let (tick, sig) = sigs.last();
        if a < tick < b {
            before.push(number_text(tick - a) + seq!['='] + sig)
        } else {
            before
        }
    }
}

/// The section of the time signatures between two ticks.
pub open spec fn signature_lines(sigs: Seq<Signature>, a: int, b: int) -> Seq<Seq<char>> {
    seq!["[time-signature]"@, "0="@ + signature_at(sigs, a)] + inner_signatures(sigs, a, b)
}

/// Whether one of the first lines opens the section of the time signatures.
pub open spec fn has_signatures(lines: Seq<Seq<char>>, n: int) -> bool
    decreases n,
{
    n > 0 && (is_signatures(lines[n - 1]) || has_signatures(lines, n - 1))
}

/// The first lines with the section of the time signatures replaced by another.
pub open spec fn replaced(lines: Seq<Seq<char>>, n: int, section: Seq<Seq<char>>) -> Seq<Seq<char>>
    decreases n,
{
    if n <= 0 {
        Seq::empty()
    } else {
        let before = replaced(lines, n - 1, section);
        let line = lines[n - 1];
        if is_signatures(line) {
            if has_signatures(lines, n - 1) {
                before
            } else {
                before + section
            }
        } else if among_signatures(lines, n - 1) && !is_section(line) {
            before
        } else {
            before.push(line)
        }
    }
}

/// The lines behind the tracks between two ticks.
pub open spec fn chunk_tail(tail: Seq<Seq<char>>, sigs: Seq<Signature>, a: int, b: int) -> Seq<
    Seq<char>,
> {
    let section = signature_lines(sigs, a, b);
    let n = tail.len() as int;
    if has_signatures(tail, n) {
        replaced(tail, n, section)
    } else {
        replaced(tail, n, section) + section
    }
}

/// How a tempo is written in the head of a score.
pub open spec fn tempo_text(tempo: Tempo) -> Seq<char> {
    number_text(tempo.0 as int) + seq!['T'] + number_text(tempo.1 as int)
}

/// The line of the tempos between two ticks.
pub open spec fn tempo_line(tempos: Seq<Tempo>, a: int, b: int) -> Seq<char> {
    "tempo="@ + joined(
        local_tempos(tempos, a, b).map_values(|t: Tempo| tempo_text(t)),
        ',',
    )
}

/// Whether one of the first lines writes tempos.
pub open spec fn has_tempos(lines: Seq<Seq<char>>, n: int) -> bool
    decreases n,
{
    n > 0 && (begins_with(lines[n - 1], "tempo="@) || has_tempos(lines, n - 1))
}

/// The lines before the tracks between two ticks.
pub open spec fn chunk_head(head: Seq<Seq<char>>, tempos: Seq<Tempo>, a: int, b: int) -> Seq<
    Seq<char>,
> {
    let line = tempo_line(tempos, a, b);
    let lines = head.map_values(
        |old_line: Seq<char>|
            if begins_with(old_line, "tempo="@) {
                line
            } else {
                old_line
            },
    );
    if has_tempos(head, head.len() as int) {
        lines
    } else {
        lines.push(line)
    }
}

/// Time signatures as their ticks and texts.
pub open spec fn signature_views(sigs: Seq<(Tick, String)>) -> Seq<Signature> {
    Seq::new(sigs.len(), |i: int| (sigs[i].0, sigs[i].1@))
}

fn positive(s: &Vec<char>) -> (r: bool)
    ensures
        r == is_positive(s@),
{
    if s.len() == 0 || s[0] == '-' {
        return false;
    }
    match parse_i64(s) {
        Some(n) => 0 < n && n <= 4294967295,
        None => false,
    }
}

fn read_signature(line: &Vec<char>) -> (r: Option<(Tick, String)>)
    ensures
        match r {
            Some((tick, sig)) => signature_of(line@) == Some((tick, sig@)),
            None => signature_of(line@) is None,
        },
{
    let equals = find_char(line, '=', 0);
    if equals == line.len() {
        return None;
    }
    let left = copy_chars(line, 0, equals);
    let sig = copy_chars(line, equals + 1, line.len());
    proof {
        assert(left@ =~= line@.take(equals as int));
        assert(sig@ =~= line@.skip(equals + 1));
    }
    let slash = find_char(&sig, '/', 0);
    if slash == sig.len() {
        return None;
    }
    let num = copy_chars(&sig, 0, slash);
    let den = copy_chars(&sig, slash + 1, sig.len());
    proof {
        assert(num@ =~= sig@.take(slash as int));
        assert(den@ =~= sig@.skip(slash + 1));
    }
    match parse_i64(&left) {
        Some(tick) => if tick >= 0 && positive(&num) && positive(&den) {
            Some((tick, string_of(&sig)))
        } else {
            None
        },
        None => None,
    }
}

fn insert_signature(sigs: &mut Vec<(Tick, String)>, new: (Tick, String))
    ensures
        signature_views(final(sigs)@) == with_signature(
            signature_views(old(sigs)@),
            (new.0, new.1@),
        ),
{
    let ghost before = signature_views(sigs@);
    let ghost added = (new.0, new.1@);
    let mut i: usize = sigs.len();
    proof {
        assert(before.take(i as int) =~= before);
        assert(with_signature(before.take(i as int), added) + before.skip(i as int)
            =~= with_signature(before, added));
    }
    while i > 0 && sigs[i - 1].0 > new.0
        invariant
            i <= sigs.len(),
            signature_views(sigs@) == before,
            added == (new.0, new.1@),
            with_signature(before.take(i as int), added) + before.skip(i as int) == with_signature(
                before,
                added,
            ),
        decreases i,
    {
        proof {
            assert(before.take(i as int).drop_last() =~= before.take(i - 1));
            assert(before.take(i as int).last() == before[i - 1]);
            assert(before[i - 1].0 == sigs@[i - 1].0);
            assert(with_signature(before.take(i - 1), added).push(before[i - 1]) + before.skip(
                i as int,
            ) =~= with_signature(before.take(i - 1), added) + before.skip(i - 1));
        }
        i -= 1;
    }
    proof {
        if i > 0 {
            assert(before.take(i as int).last() == before[i - 1]);
            assert(before[i - 1].0 == sigs@[i - 1].0);
        }
    }
    if i > 0 && sigs[i - 1].0 == new.0 {
        sigs.set(i - 1, new);
        proof {
            assert(signature_views(sigs@) =~= before.take(i as int).drop_last().push(added)
                + before.skip(i as int));
        }
    } else {
        sigs.insert(i, new);
        proof {
            assert(signature_views(sigs@) =~= before.take(i as int).push(added) + before.skip(
                i as int,
            ));
        }
    }
}

/// Reads the time signatures out of the lines behind the tracks.
pub fn signatures(tail: &[String]) -> (sigs: Vec<(Tick, String)>)
    ensures
        signature_views(sigs@) == signatures_of(string_views(tail@), tail.len() as int),
{
    let ghost lines = string_views(tail@);
    let mut sigs: Vec<(Tick, String)> = Vec::new();
    let mut within: bool = false;
    let mut i: usize = 0;
    proof {
        assert(signature_views(sigs@) =~= Seq::<Signature>::empty());
    }
    while i < tail.len()
        invariant
            i <= tail.len(),
            lines == string_views(tail@),
            within == among_signatures(lines, i as int),
            signature_views(sigs@) == signatures_of(lines, i as int),
        decreases tail.len() - i,
    {
        let line = trim(&chars_of(tail[i].as_str()));
        proof {
            assert(lines[i as int] == tail@[i as int]@);
        }
        if line.len() > 0 && line[0] == '[' {
            within = same_chars(&line, &chars_of("[time-signature]"));
        } else if within {
            match read_signature(&line) {
                Some(new) => {
                    insert_signature(&mut sigs, new);
                },
                None => {},
            }
        }
        i += 1;
    }
    sigs
}

/// Writes the section of the time signatures between two ticks.
fn section(sigs: &Vec<(Tick, String)>, a: Tick, b: Tick) -> (r: Vec<String>)
    requires
        0 <= a,
    ensures
        string_views(r@) == signature_lines(signature_views(sigs@), a as int, b as int),
{
    let ghost view = signature_views(sigs@);
    let mut current: String = "4/4".to_owned();
    let mut k: usize = sigs.len();
    let mut found: bool = false;
    proof {
        assert(view.take(k as int) =~= view);
    }
    while k > 0 && !found
        invariant
            k <= sigs.len(),
            view == signature_views(sigs@),
            !found ==> current@ == "4/4"@,
            found ==> current@ == signature_at(view, a as int),
            !found ==> signature_at(view.take(k as int), a as int) == signature_at(
                view,
                a as int,
            ),
        decreases k, (if found {
            0int
        } else {
            1int
        }),
    {
        proof {
            assert(view.take(k as int).drop_last() =~= view.take(k - 1));
            assert(view.take(k as int).last() == view[k - 1]);
        }
        if sigs[k - 1].0 <= a {
            current = sigs[k - 1].1.clone();
            found = true;
        } else {
            k -= 1;
        }
    }
    let mut r: Vec<String> = Vec::new();
    r.push("[time-signature]".to_owned());
    let mut line = chars_of("0=");
    push_text(&mut line, current.as_str());
    r.push(string_of(&line));
    let ghost front = string_views(r@);
    let mut i: usize = 0;
    proof {
        assert(front =~= seq!["[time-signature]"@, "0="@ + signature_at(view, a as int)]);
        assert(view.take(0) =~= Seq::<Signature>::empty());
        assert(front + inner_signatures(view.take(0), a as int, b as int) =~= front);
    }
    while i < sigs.len()
        invariant
            i <= sigs.len(),
            0 <= a,
            view == signature_views(sigs@),
            string_views(r@) == front + inner_signatures(
                view.take(i as int),
                a as int,
                b as int,
            ),
        decreases sigs.len() - i,
    {
        let tick: Tick = sigs[i].0;
        proof {
            assert(view.take(i + 1).drop_last() =~= view.take(i as int));
            assert(view.take(i + 1).last() == view[i as int]);
        }
        if a < tick && tick < b {
            let mut line: Vec<char> = Vec::new();
            push_number(&mut line, tick - a);
            line.push('=');
            push_text(&mut line, sigs[i].1.as_str());
            let ghost before = string_views(r@);
            let ghost text = line@;
            r.push(string_of(&line));
            proof {
                assert(text =~= number_text(tick - a) + seq!['='] + view[i as int].1);
                assert(string_views(r@) =~= before.push(text));
                assert(before.push(text) =~= front + inner_signatures(
                    view.take(i + 1),
                    a as int,
                    b as int,
                ));
            }
        }
        i += 1;
    }
    proof {
        assert(view.take(i as int) =~= view);
    }
    r
}

/// Appends copies of lines.
fn push_lines(out: &mut Vec<String>, lines: &Vec<String>)
    ensures
        string_views(final(out)@) == string_views(old(out)@) + string_views(lines@),
{
    let ghost before = string_views(out@);
    let ghost more = string_views(lines@);
    let mut i: usize = 0;
    proof {
        assert(before + more.take(0) =~= before);
    }
    while i < lines.len()
        invariant
            i <= lines.len(),
            more == string_views(lines@),
            string_views(out@) == before + more.take(i as int),
        decreases lines.len() - i,
    {
        let ghost now = string_views(out@);
        out.push(lines[i].clone());
        i += 1;
        proof {
            assert(string_views(out@) =~= now.push(lines@[i - 1]@));
            assert(string_views(out@) =~= before + more.take(i as int));
        }
    }
    proof {
        assert(more.take(i as int) =~= more);
    }
}

/// Fits the lines behind the tracks to what lies between two ticks.
pub fn make_tail(tail: &[String], sigs: &Vec<(Tick, String)>, a: Tick, b: Tick) -> (r: Vec<String>)
    requires
        0 <= a,
    ensures
        string_views(r@) == chunk_tail(
            string_views(tail@),
            signature_views(sigs@),
            a as int,
            b as int,
        ),
{
    let fresh = section(sigs, a, b);
    let ghost lines = string_views(tail@);
    let ghost new = string_views(fresh@);
    let mut r: Vec<String> = Vec::new();
    let mut within: bool = false;
    let mut inserted: bool = false;
    let mut i: usize = 0;
    proof {
        assert(string_views(r@) =~= Seq::<Seq<char>>::empty());
    }
    while i < tail.len()
        invariant
            i <= tail.len(),
            lines == string_views(tail@),
            new == string_views(fresh@),
            within == among_signatures(lines, i as int),
            inserted == has_signatures(lines, i as int),
            string_views(r@) == replaced(lines, i as int, new),
        decreases tail.len() - i,
    {
        let line = trim(&chars_of(tail[i].as_str()));
        proof {
            assert(lines[i as int] == tail@[i as int]@);
            reveal_strlit("[time-signature]");
        }
        if same_chars(&line, &chars_of("[time-signature]")) {
            if !inserted {
                push_lines(&mut r, &fresh);
                inserted = true;
            }
            within = true;
        } else {
            let opens: bool = line.len() > 0 && line[0] == '[';
            if opens {
                within = false;
            }
            if !within {
                let ghost before = string_views(r@);
                r.push(tail[i].clone());
                proof {
                    assert(string_views(r@) =~= before.push(lines[i as int]));
                }
            }
        }
        i += 1;
    }
    if !inserted {
        push_lines(&mut r, &fresh);
    }
    r
}

/// Fits the lines before the tracks to what lies between two ticks.
pub fn make_head(head: &[String], tempos: &[Tempo], a: Tick, b: Tick) -> (r: Vec<String>)
    requires
        0 <= a,
    ensures
        string_views(r@) == chunk_head(string_views(head@), tempos@, a as int, b as int),
{
    let local = rebase_tempos(tempos, a, b);
    let mut events: Vec<String> = Vec::new();
    let ghost f = |t: Tempo| tempo_text(t);
    let mut i: usize = 0;
    proof {
        assert(string_views(events@) =~= local@.take(0).map_values(f));
    }
    while i < local.len()
        invariant
            i <= local.len(),
            f == (|t: Tempo| tempo_text(t)),
            string_views(events@) == local@.take(i as int).map_values(f),
        decreases local.len() - i,
    {
        let mut text: Vec<char> = Vec::new();
        push_number(&mut text, local[i].0);
        text.push('T');
        push_number(&mut text, local[i].1 as i64);
        let ghost before = string_views(events@);
        let ghost event = text@;
        events.push(string_of(&text));
        proof {
            assert(event =~= tempo_text(local@[i as int]));
            assert(string_views(events@) =~= before.push(event));
            assert(string_views(events@) =~= local@.take(i + 1).map_values(f));
        }
        i += 1;
    }
    proof {
        assert(local@.take(i as int) =~= local@);
    }
    let mut line = chars_of("tempo=");
    push_chars(&mut line, &join_strings(&events, ','));
    let tempo = string_of(&line);
    let prefix = chars_of("tempo=");
    let ghost lines = string_views(head@);
    let ghost written = tempo@;
    let ghost g = |old_line: Seq<char>|
        if begins_with(old_line, "tempo="@) {
            written
        } else {
            old_line
        };
    let mut found: bool = false;
    let mut r: Vec<String> = Vec::new();
    let mut i: usize = 0;
    proof {
        assert(string_views(r@) =~= lines.take(0).map_values(g));
    }
    while i < head.len()
        invariant
            i <= head.len(),
            lines == string_views(head@),
            prefix@ == "tempo="@,
            written == tempo@,
            g == (|old_line: Seq<char>|
                if begins_with(old_line, "tempo="@) {
                    written
                } else {
                    old_line
                }),
            found == has_tempos(lines, i as int),
            string_views(r@) == lines.take(i as int).map_values(g),
        decreases head.len() - i,
    {
        let ghost before = string_views(r@);
        proof {
            assert(lines[i as int] == head@[i as int]@);
        }
        if has_prefix(&chars_of(head[i].as_str()), &prefix) {
            found = true;
            r.push(tempo.clone());
        } else {
            r.push(head[i].clone());
        }
        proof {
            assert(string_views(r@) =~= before.push(g(lines[i as int])));
            assert(string_views(r@) =~= lines.take(i + 1).map_values(g));
        }
        i += 1;
    }
    proof {
        assert(lines.take(i as int) =~= lines);
        assert(written == tempo_line(tempos@, a as int, b as int));
        assert(lines.map_values(g) =~= lines.map_values(
            |old_line: Seq<char>|
                if begins_with(old_line, "tempo="@) {
                    tempo_line(tempos@, a as int, b as int)
                } else {
                    old_line
                },
        ));
    }
    if !found {
        let ghost before = string_views(r@);
        r.push(tempo);
        proof {
            assert(string_views(r@) =~= before.push(written));
        }
    }
    r
}

} // verus!
