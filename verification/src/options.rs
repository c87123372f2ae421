//! Settings as they are written on a command line, and numbers as they are shown.
use crate::fold::{is_range, Gain, VolumeRange};
use crate::text::{chars_of, copy_chars, cut, find_char, integer_of, parse_i64, push_count, same_chars, string_of, number_text};
use vstd::prelude::*;

verus! {

/// What a range of volumes has to look like.
pub open spec fn range_help() -> Seq<char> {
    "1..15 범위의 최소:최대를 입력하세요 (예: 11:15, 최소는 최대 이하)."@
}

/// The range of volumes that a text such as `11:15` writes.
pub open spec fn range_text(s: Seq<char>) -> Option<(int, int)> {
    match cut(s, ':') {
        None => None,
        Some((low, high)) => match (integer_of(low), integer_of(high)) {
            (Some(a), Some(b)) => if 1 <= a <= b <= 15 {
                Some((a, b))
            } else {
                None
            },
            _ => None,
        },
    }
}

/// Reads a range of volumes such as `11:15`.
pub fn parse_volume_range(value: &str) -> (r: Result<VolumeRange, String>)
    ensures
        match r {
            Ok(range) => range_text(value@) == Some((range.min as int, range.max as int))
                && is_range(range),
            Err(help) => range_text(value@) is None && help@ == range_help(),
        },
{
    let help = "1..15 범위의 최소:최대를 입력하세요 (예: 11:15, 최소는 최대 이하).".to_owned();
    let chars = chars_of(value);
    let colon = find_char(&chars, ':', 0);
    if colon == chars.len() {
        return Err(help);
    }
    let low = copy_chars(&chars, 0, colon);
    let high = copy_chars(&chars, colon + 1, chars.len());
    proof {
        assert(low@ =~= chars@.take(colon as int));
        assert(high@ =~= chars@.skip(colon + 1));
    }
    let min = match parse_i64(&low) {
        Some(n) => n,
        None => return Err(help),
    };
    let max = match parse_i64(&high) {
        Some(n) => n,
        None => return Err(help),
    };
    if min < 1 || max < min || max > 15 {
        return Err(help);
    }
    Ok(VolumeRange { min: min as i32, max: max as i32 })
}

/// How the volume is moved, as it is written: `auto`, `none` or a number.
pub open spec fn gain_text(s: Seq<char>) -> Option<Gain> {
    if s == "auto"@ {
        Some(Gain::Auto)
    } else if s == "none"@ {
        Some(Gain::Unchanged)
    } else {
        match integer_of(s) {
            Some(n) => if i32::MIN <= n <= i32::MAX {
                Some(Gain::Shift(n as i32))
            } else {
                None
            },
            None => None,
        }
    }
}

/// Reads how the volume is moved.
pub fn parse_gain(value: &str) -> (r: Option<Gain>)
    ensures
        r == gain_text(value@),
{
    let chars = chars_of(value);
    if same_chars(&chars, &chars_of("auto")) {
        return Some(Gain::Auto);
    }
    if same_chars(&chars, &chars_of("none")) {
        return Some(Gain::Unchanged);
    }
    match parse_i64(&chars) {
        Some(n) => if i32::MIN as i64 <= n && n <= i32::MAX as i64 {
            Some(Gain::Shift(n as i32))
        } else {
            None
        },
        None => None,
    }
}

/// Digits with a comma before every third one from behind.
pub open spec fn grouped(s: Seq<char>) -> Seq<char>
    decreases s.len(),
{
    if s.len() <= 3 {
        s
    } else {
        grouped(s.take(s.len() - 3)) + seq![','] + s.skip(s.len() - 3)
    }
}

/// Writes a number with commas between the thousands.
pub fn number(value: usize) -> (text: String)
    ensures
        text@ == grouped(number_text(value as int)),
{
    let mut digits: Vec<char> = Vec::new();
    push_count(&mut digits, value as u128);
    proof {
        assert(digits@ =~= number_text(value as int));
    }
    string_of(&group(&digits))
}

fn group(digits: &Vec<char>) -> (r: Vec<char>)
    ensures
        r@ == grouped(digits@),
    decreases digits.len(),
{
    if digits.len() <= 3 {
        return copy_chars(digits, 0, digits.len());
    }
    let at = digits.len() - 3;
    let front = copy_chars(digits, 0, at);
    proof {
        assert(front@ =~= digits@.take(at as int));
    }
    let mut r = group(&front);
    r.push(',');
    let ghost before = r@;
    let back = copy_chars(digits, at, digits.len());
    proof {
        assert(back@ =~= digits@.skip(at as int));
    }
    crate::text::push_chars(&mut r, &back);
    proof {
        assert(r@ =~= grouped(digits@));
    }
    r
}

} // verus!
