//! Files that are handed over for saving.
use crate::text::{chars_of, copy_chars, padded_front, number_text, push_chars, push_padded, push_text, string_of, trim, trimmed, without_back};
use crate::mmi::{lower_char, lowercase};
use crate::workflow::Artifact;
use vstd::prelude::*;

verus! {

/// Whether a character cannot be part of a file's name.
pub open spec fn is_forbidden(c: char) -> bool {
    (c as u32) < 32 || (127 <= c as u32 && (c as u32) < 160) || c == '<' || c == '>' || c == ':'
        || c == '"' || c == '|' || c == '?' || c == '*'
}

fn forbidden(c: char) -> (r: bool)
    ensures
        r == is_forbidden(c),
{
    (c as u32) < 32 || (127 <= c as u32 && (c as u32) < 160) || c == '<' || c == '>' || c == ':'
        || c == '"' || c == '|' || c == '?' || c == '*'
}

/// What stands behind the last stroke of a path.
pub open spec fn leaf_of(s: Seq<char>) -> Seq<char>
    decreases s.len(),
{
    if s.len() == 0 || s.last() == '/' || s.last() == '\\' {
        Seq::empty()
    } else {
        leaf_of(s.drop_last()).push(s.last())
    }
}

/// A text with `_` in place of what cannot be part of a file's name.
pub open spec fn cleaned(s: Seq<char>) -> Seq<char> {
    s.map_values(
        |c: char|
            if is_forbidden(c) {
                '_'
            } else {
                c
            },
    )
}

/// A name without spaces around it and without dots and spaces behind it.
pub open spec fn stripped(s: Seq<char>) -> Seq<char> {
    without_back(trimmed(s), |c: char| c == '.' || c == ' ')
}

pub open spec fn upper_char(c: char) -> char {
    if 'a' <= c <= 'z' {
        ((c as u32 - 32) as u8) as char
    } else {
        c
    }
}

/// What stands before the first dot, in capitals.
pub open spec fn base_of(s: Seq<char>) -> Seq<char>
    decreases s.len(),
{
    if s.len() == 0 || s[0] == '.' {
        Seq::empty()
    } else {
        seq![upper_char(s[0])] + base_of(s.skip(1))
    }
}

/// Whether a name, in capitals, is one that some systems keep for devices.
pub open spec fn is_reserved(base: Seq<char>) -> bool {
    ||| base == seq!['C', 'O', 'N']
    ||| base == seq!['P', 'R', 'N']
    ||| base == seq!['A', 'U', 'X']
    ||| base == seq!['N', 'U', 'L']
    ||| (base.len() == 4 && (base.take(3) == seq!['C', 'O', 'M'] || base.take(3) == seq![
        'L',
        'P',
        'T',
    ]) && '1' <= base[3] <= '9')
}

/// The name under which a file can be saved everywhere.
pub open spec fn safe_name(name: Seq<char>, fallback: Seq<char>) -> Seq<char> {
    let clean = stripped(cleaned(leaf_of(name)));
    if clean.len() == 0 {
        fallback
    } else if is_reserved(base_of(clean)) {
        "_"@ + clean
    } else {
        clean
    }
}

fn take_leaf(s: &Vec<char>) -> (r: Vec<char>)
    ensures
        r@ == leaf_of(s@),
{
    let mut from: usize = s.len();
    proof {
        assert(s@.take(s.len() as int) =~= s@);
        assert(s@.subrange(from as int, s.len() as int) =~= Seq::<char>::empty());
        assert(leaf_of(s@.take(from as int)) + s@.subrange(from as int, s.len() as int) =~= leaf_of(
            s@,
        ));
    }
    while from > 0 && s[from - 1] != '/' && s[from - 1] != '\\'
        invariant
            from <= s.len(),
            leaf_of(s@.take(from as int)) + s@.subrange(from as int, s.len() as int) == leaf_of(s@),
        decreases from,
    {
        proof {
            let t = s@.take(from as int);
            assert(t.drop_last() =~= s@.take(from - 1));
            assert(t.last() == s@[from - 1]);
            assert(leaf_of(t) + s@.subrange(from as int, s.len() as int) =~= leaf_of(
                s@.take(from - 1),
            ) + s@.subrange(from - 1, s.len() as int));
        }
        from -= 1;
    }
    proof {
        let t = s@.take(from as int);
        if from > 0 {
            assert(t.last() == s@[from - 1]);
        }
        assert(leaf_of(t) =~= Seq::<char>::empty());
        assert(s@.subrange(from as int, s.len() as int) =~= leaf_of(s@));
    }
    copy_chars(s, from, s.len())
}

fn clean_chars(s: &Vec<char>) -> (r: Vec<char>)
    ensures
        r@ == cleaned(s@),
{
    let mut r: Vec<char> = Vec::new();
    let mut i: usize = 0;
    while i < s.len()
        invariant
            i <= s.len(),
            r.len() == i,
            forall|k: int| 0 <= k < i ==> #[trigger] r[k] == cleaned(s@)[k],
        decreases s.len() - i,
    {
        let c = s[i];
        if forbidden(c) {
            r.push('_');
        } else {
            r.push(c);
        }
        i += 1;
    }
    proof {
        assert(r@ =~= cleaned(s@));
    }
    r
}

fn strip_back(s: &Vec<char>) -> (r: Vec<char>)
    ensures
        r@ == without_back(s@, |c: char| c == '.' || c == ' '),
{
    let ghost drop = |c: char| c == '.' || c == ' ';
    let mut end: usize = s.len();
    proof {
        assert(s@.take(end as int) =~= s@);
    }
    while end > 0 && (s[end - 1] == '.' || s[end - 1] == ' ')
        invariant
            end <= s.len(),
            drop == (|c: char| c == '.' || c == ' '),
            without_back(s@.take(end as int), drop) == without_back(s@, drop),
        decreases end,
    {
        proof {
            assert(s@.take(end as int).drop_last() =~= s@.take(end - 1));
            assert(s@.take(end as int).last() == s@[end - 1]);
        }
        end -= 1;
    }
    proof {
        let t = s@.take(end as int);
        if end > 0 {
            assert(t.last() == s@[end - 1]);
        }
        assert(without_back(t, drop) == t);
        assert(t =~= s@.subrange(0, end as int));
    }
    copy_chars(s, 0, end)
}

fn capitals(s: &Vec<char>) -> (r: Vec<char>)
    ensures
        r@ == base_of(s@),
{
    let mut r: Vec<char> = Vec::new();
    let mut i: usize = 0;
    proof {
        assert(s@.skip(0) =~= s@);
        assert(r@ + base_of(s@.skip(0)) =~= base_of(s@));
    }
    while i < s.len() && s[i] != '.'
        invariant
            i <= s.len(),
            r@ + base_of(s@.skip(i as int)) == base_of(s@),
        decreases s.len() - i,
    {
        let c = s[i];
        let up: char = if 'a' <= c && c <= 'z' {
            (c as u8 - 32) as char
        } else {
            c
        };
        proof {
            let rest = s@.skip(i as int);
            assert(rest[0] == c);
            assert(rest.skip(1) =~= s@.skip(i + 1));
            assert(up == upper_char(c));
            assert(r@ + base_of(rest) =~= r@.push(up) + base_of(s@.skip(i + 1)));
        }
        r.push(up);
        i += 1;
    }
    proof {
        let rest = s@.skip(i as int);
        if i < s.len() {
            assert(rest[0] == s@[i as int]);
        }
        assert(base_of(rest) =~= Seq::<char>::empty());
        assert(r@ =~= base_of(s@));
    }
    r
}

fn reserved(b: &Vec<char>) -> (r: bool)
    ensures
        r == is_reserved(b@),
{
    if b.len() == 3 {
        proof {
            assert((b@ == seq!['C', 'O', 'N']) == (b@ =~= seq!['C', 'O', 'N']));
            assert((b@ == seq!['P', 'R', 'N']) == (b@ =~= seq!['P', 'R', 'N']));
            assert((b@ == seq!['A', 'U', 'X']) == (b@ =~= seq!['A', 'U', 'X']));
            assert((b@ == seq!['N', 'U', 'L']) == (b@ =~= seq!['N', 'U', 'L']));
        }
        (b[0] == 'C' && b[1] == 'O' && b[2] == 'N') || (b[0] == 'P' && b[1] == 'R' && b[2] == 'N')
            || (b[0] == 'A' && b[1] == 'U' && b[2] == 'X') || (b[0] == 'N' && b[1] == 'U' && b[2]
            == 'L')
    } else if b.len() == 4 {
        proof {
            assert((b@.take(3) == seq!['C', 'O', 'M']) == (b@.take(3) =~= seq!['C', 'O', 'M']));
            assert((b@.take(3) == seq!['L', 'P', 'T']) == (b@.take(3) =~= seq!['L', 'P', 'T']));
        }
        ((b[0] == 'C' && b[1] == 'O' && b[2] == 'M') || (b[0] == 'L' && b[1] == 'P' && b[2] == 'T'))
            && '1' <= b[3] && b[3] <= '9'
    } else {
        false
    }
}

/// The name under which a file can be saved everywhere: without its path and without
/// characters or words that some systems refuse.
pub fn safe_filename(name: &str, fallback: &str) -> (r: String)
    ensures
        r@ == safe_name(name@, fallback@),
{
    let leaf = take_leaf(&chars_of(name));
    let clean = strip_back(&trim(&clean_chars(&leaf)));
    if clean.len() == 0 {
        return string_of(&chars_of(fallback));
    }
    if reserved(&capitals(&clean)) {
        let mut r = chars_of("_");
        push_chars(&mut r, &clean);
        return string_of(&r);
    }
    string_of(&clean)
}

/// Whether a name ends in `.mmi`, however that is written.
pub open spec fn is_score_name(s: Seq<char>) -> bool {
    let n = s.len() as int;
    n >= 4 && lower_char(s[n - 4]) == '.' && lower_char(s[n - 3]) == 'm' && lower_char(s[n - 2])
        == 'm' && lower_char(s[n - 1]) == 'i'
}

/// Tells whether a name ends in `.mmi`.
pub fn names_score(name: &str) -> (r: bool)
    ensures
        r == is_score_name(name@),
{
    let s = chars_of(name);
    let n = s.len();
    n >= 4 && lowercase(s[n - 4]) == '.' && lowercase(s[n - 3]) == 'm' && lowercase(s[n - 2]) == 'm'
        && lowercase(s[n - 1]) == 'i'
}

/// The places of the first files that hold scores.
pub open spec fn score_files(names: Seq<Seq<char>>, n: int) -> Seq<usize>
    decreases n,
{
    if n <= 0 {
        Seq::empty()
    } else if is_score_name(names[n - 1]) {
        score_files(names, n - 1).push((n - 1) as usize)
    } else {
        score_files(names, n - 1)
    }
}

pub open spec fn artifact_names(artifacts: Seq<Artifact>) -> Seq<Seq<char>> {
    Seq::new(artifacts.len(), |i: int| artifacts[i].name@)
}

/// Finds the files that hold scores.
pub fn find_scores(artifacts: &Vec<Artifact>) -> (r: Vec<usize>)
    ensures
        r@ == score_files(artifact_names(artifacts@), artifacts.len() as int),
{
    let ghost names = artifact_names(artifacts@);
    let mut r: Vec<usize> = Vec::new();
    let mut i: usize = 0;
    while i < artifacts.len()
        invariant
            i <= artifacts.len(),
            names == artifact_names(artifacts@),
            r@ == score_files(names, i as int),
        decreases artifacts.len() - i,
    {
        proof {
            assert(names[i as int] == artifacts@[i as int].name@);
        }
        if names_score(artifacts[i].name.as_str()) {
            r.push(i);
        }
        i += 1;
    }
    r
}

/// The name of a file among others where its own is taken: with its number before the
/// ending.
pub open spec fn numbered_name(name: Seq<char>, index: int) -> Seq<char> {
    let n = name.len() as int;
    let base = if n >= 4 && name.skip(n - 4) == seq!['.', 'm', 'm', 'i'] {
        name.take(n - 4)
    } else {
        name
    };
    base + "_"@ + padded_front(number_text(index + 1), 2, '0') + ".mmi"@
}

/// Names a file anew where its own name is taken.
pub fn number_name(name: &str, index: usize) -> (r: String)
    ensures
        r@ == numbered_name(name@, index as int),
{
    let s = chars_of(name);
    let n = s.len();
    let has_ending = n >= 4 && s[n - 4] == '.' && s[n - 3] == 'm' && s[n - 2] == 'm' && s[n - 1] == 'i';
    proof {
        if n >= 4 {
            assert((s@.skip(n - 4) == seq!['.', 'm', 'm', 'i']) == (s@.skip(n - 4) =~= seq![
                '.',
                'm',
                'm',
                'i',
            ]));
        }
    }
    let mut r = if has_ending {
        copy_chars(&s, 0, n - 4)
    } else {
        copy_chars(&s, 0, n)
    };
    proof {
        if has_ending {
            assert(r@ =~= s@.take(n - 4));
        } else {
            assert(r@ =~= s@);
        }
    }
    push_text(&mut r, "_");
    push_padded(&mut r, index as u128 + 1, 2, '0');
    push_text(&mut r, ".mmi");
    string_of(&r)
}

} // verus!
