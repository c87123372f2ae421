//! The forms that the commands of a text take, their numbers left out.
use crate::mmi::{lower_char, lowercase};
use crate::score::{Score, TrackView};
use crate::tally::{at_most, counted, Count, Tally};
use crate::text::{begins_with, chars_of, copy_chars, has_prefix, is_digit_char};
use vstd::prelude::*;

verus! {

/// The word that opens a text of notes.
pub open spec fn opening() -> Seq<char> {
    seq!['M', 'M', 'L', '@']
}

/// A text without the word that opens it.
pub open spec fn body_of(mml: Seq<char>) -> Seq<char> {
    if begins_with(mml, opening()) {
        mml.skip(4)
    } else {
        mml
    }
}

pub open spec fn is_note_letter(c: char) -> bool {
    'a' <= c <= 'g'
}

pub open spec fn is_sign(c: char) -> bool {
    c == '+' || c == '#' || c == '-'
}

/// Whether a letter begins a command of the language.
pub open spec fn is_command(c: char) -> bool {
    is_note_letter(c) || c == 'r' || c == 'l' || c == 'n' || c == 'o' || c == 'v' || c == 't'
}

/// The first position from a given one on whose character is not of a class.
pub open spec fn run_end(s: Seq<char>, from: int, class: spec_fn(char) -> bool) -> int
    decreases s.len() - from,
{
    if 0 <= from < s.len() && class(s[from]) {
        run_end(s, from + 1, class)
    } else {
        from
    }
}

/// Where the command that begins at a position ends.
pub open spec fn command_end(s: Seq<char>, start: int) -> int {
    let lower = lower_char(s[start]);
    let signs = if is_note_letter(lower) {
        run_end(s, start + 1, |c: char| is_sign(c))
    } else {
        start + 1
    };
    let digits = run_end(s, signs, |c: char| is_digit_char(c));
    if is_note_letter(lower) || lower == 'r' || lower == 'l' {
        run_end(s, digits, |c: char| c == '.')
    } else {
        digits
    }
}

/// A text with each run of digits written as one `#`.
pub open spec fn form(s: Seq<char>) -> Seq<char>
    decreases s.len(),
{
    if s.len() == 0 {
        Seq::empty()
    } else {
        let before = form(s.drop_last());
        if !is_digit_char(s.last()) {
            before.push(s.last())
        } else if s.len() > 1 && is_digit_char(s[s.len() - 2]) {
            before
        } else {
            before.push('#')
        }
    }
}

/// Counts with the forms of the commands of a text from a position on.
pub open spec fn count_forms(counts: Seq<Count>, s: Seq<char>, from: int) -> Seq<Count>
    decreases s.len() - from,
{
    if !(0 <= from < s.len()) {
        counts
    } else if s[from] == '&' || s[from] == '<' || s[from] == '>' {
        count_forms(counted(counts, seq![s[from]]), s, from + 1)
    } else if !is_command(lower_char(s[from])) {
        count_forms(counts, s, from + 1)
    } else {
        let end = command_end(s, from);
        if from < end <= s.len() {
            count_forms(counted(counts, form(s.subrange(from, end))), s, end)
        } else {
            counts
        }
    }
}

/// The forms of the commands of the first tracks, with how often each occurs.
pub open spec fn forms_of(tracks: Seq<TrackView>, n: int) -> Seq<Count>
    decreases n,
{
    if n <= 0 {
        Seq::empty()
    } else {
        count_forms(forms_of(tracks, n - 1), body_of(tracks[n - 1].mml), 0)
    }
}

fn skip_signs(s: &Vec<char>, from: usize) -> (end: usize)
    requires
        from <= s.len(),
    ensures
        end == run_end(s@, from as int, |c: char| is_sign(c)),
        from <= end <= s.len(),
{
    let ghost class = |c: char| is_sign(c);
    let mut i: usize = from;
    while i < s.len() && (s[i] == '+' || s[i] == '#' || s[i] == '-')
        invariant
            from <= i <= s.len(),
            class == (|c: char| is_sign(c)),
            run_end(s@, from as int, class) == run_end(s@, i as int, class),
        decreases s.len() - i,
    {
        i += 1;
    }
    i
}

fn skip_digits(s: &Vec<char>, from: usize) -> (end: usize)
    requires
        from <= s.len(),
    ensures
        end == run_end(s@, from as int, |c: char| is_digit_char(c)),
        from <= end <= s.len(),
{
    let ghost class = |c: char| is_digit_char(c);
    let mut i: usize = from;
    while i < s.len() && s[i] >= '0' && s[i] <= '9'
        invariant
            from <= i <= s.len(),
            class == (|c: char| is_digit_char(c)),
            run_end(s@, from as int, class) == run_end(s@, i as int, class),
        decreases s.len() - i,
    {
        i += 1;
    }
    i
}

fn skip_dots(s: &Vec<char>, from: usize) -> (end: usize)
    requires
        from <= s.len(),
    ensures
        end == run_end(s@, from as int, |c: char| c == '.'),
        from <= end <= s.len(),
{
    let ghost class = |c: char| c == '.';
    let mut i: usize = from;
    while i < s.len() && s[i] == '.'
        invariant
            from <= i <= s.len(),
            class == (|c: char| c == '.'),
            run_end(s@, from as int, class) == run_end(s@, i as int, class),
        decreases s.len() - i,
    {
        i += 1;
    }
    i
}

fn make_form(s: &Vec<char>, from: usize, to: usize) -> (r: Vec<char>)
    requires
        from <= to <= s.len(),
    ensures
        r@ == form(s@.subrange(from as int, to as int)),
{
    let mut r: Vec<char> = Vec::new();
    let mut i: usize = from;
    let mut in_number: bool = false;
    proof {
        assert(s@.subrange(from as int, from as int) =~= Seq::<char>::empty());
    }
    while i < to
        invariant
            from <= i <= to <= s.len(),
            r@ == form(s@.subrange(from as int, i as int)),
            in_number == (i > from && is_digit_char(s[i - 1])),
        decreases to - i,
    {
        let c = s[i];
        proof {
            let next = s@.subrange(from as int, i + 1);
            assert(next.drop_last() =~= s@.subrange(from as int, i as int));
            assert(next.last() == c);
        }
        if c >= '0' && c <= '9' {
            if !in_number {
                r.push('#');
            }
            in_number = true;
        } else {
            in_number = false;
            r.push(c);
        }
        i += 1;
    }
    r
}

/// Counts the forms of the commands of one text.
fn count_text(tally: &mut Tally, s: &Vec<char>, Ghost(n): Ghost<int>)
    requires
        at_most(old(tally)@, n),
        0 <= n,
        n + s.len() <= u128::MAX,
    ensures
        final(tally)@ == count_forms(old(tally)@, s@, 0),
        at_most(final(tally)@, n + s.len()),
{
    let ghost whole = count_forms(tally@, s@, 0);
    let mut i: usize = 0;
    while i < s.len()
        invariant
            i <= s.len(),
            0 <= n,
            n + s.len() <= u128::MAX,
            at_most(tally@, n + i),
            count_forms(tally@, s@, i as int) == whole,
        decreases s.len() - i,
    {
        let c = s[i];
        let lower = lowercase(c);
        let is_note = lower >= 'a' && lower <= 'g';
        if c == '&' || c == '<' || c == '>' {
            let mut one: Vec<char> = Vec::new();
            one.push(c);
            proof {
                assert(one@ =~= seq![c]);
            }
            tally.count(&one, Ghost(n + i));
            i += 1;
        } else if !(is_note || lower == 'r' || lower == 'l' || lower == 'n' || lower == 'o'
            || lower == 'v' || lower == 't') {
            i += 1;
        } else {
            let mut end: usize = i + 1;
            if is_note {
                end = skip_signs(s, end);
            }
            end = skip_digits(s, end);
            if is_note || lower == 'r' || lower == 'l' {
                end = skip_dots(s, end);
            }
            let shape = make_form(s, i, end);
            tally.count(&shape, Ghost(n + i));
            proof {
                assert(at_most(tally@, n + end));
            }
            i = end;
        }
    }
}

/// Counts the forms of the commands of a score.
pub fn shapes(score: &Score) -> (tally: Tally)
    ensures
        tally@ == forms_of(score@.tracks, score@.tracks.len() as int),
{
    let mut tally = Tally::new();
    let ghost mut n: int = 0;
    let mut word: Vec<char> = Vec::new();
    word.push('M');
    word.push('M');
    word.push('L');
    word.push('@');
    proof {
        assert(word@ =~= opening());
    }
    let mut i: usize = 0;
    while i < score.tracks.len()
        invariant
            i <= score.tracks.len(),
            word@ == opening(),
            tally@ == forms_of(score@.tracks, i as int),
            0 <= n <= i * usize::MAX,
            at_most(tally@, n),
        decreases score.tracks.len() - i,
    {
        let mut body = chars_of(score.tracks[i].mml.as_str());
        if has_prefix(&body, &word) {
            body = copy_chars(&body, 4, body.len());
            proof {
                assert(body@ =~= score.tracks[i as int].mml@.skip(4));
            }
        }
        proof {
            assert((i + 1) * usize::MAX <= u128::MAX && (i + 1) * usize::MAX == i * usize::MAX
                + usize::MAX) by (nonlinear_arith)
                requires
                    i < usize::MAX,
                    usize::MAX <= 0xffff_ffff_ffff_ffff,
            ;
        }
        count_text(&mut tally, &body, Ghost(n));
        proof {
            n = n + body.len();
        }
        i += 1;
    }
    tally
}

} // verus!
