//! Decimal numbers and plain text, as sequences of bytes and of characters.
use vstd::prelude::*;
use vstd::utf8::encode_utf8;

verus! {

/// Appending a character to a string, as `String::push` does: the text before the call,
/// followed by that character.
pub assume_specification[ String::push ](text: &mut String, c: char)
    ensures
        final(text)@ == old(text)@.push(c),
;

/// Whether a byte is one of the ASCII digits.
pub open spec fn is_digit(b: u8) -> bool {
    48 <= b <= 57
}

/// Whether every byte is an ASCII digit.
pub open spec fn all_digits(s: Seq<u8>) -> bool {
    forall|i: int| 0 <= i < s.len() ==> is_digit(#[trigger] s[i])
}

/// The number that a run of ASCII digits writes in base ten.
pub open spec fn digits_value(s: Seq<u8>) -> nat
    decreases s.len(),
{
    if s.len() == 0 {
        0
    } else {
        (digits_value(s.drop_last()) * 10 + (s.last() as int - 48)) as nat
    }
}

/// The ASCII digits of a number in base ten, without leading zeros.
pub open spec fn decimal(n: nat) -> Seq<u8>
    decreases n,
{
    if n < 10 {
        seq![(48 + n) as u8]
    } else {
        decimal(n / 10).push((48 + n % 10) as u8)
    }
}

/// The text of a whole number, with a leading minus sign where it is negative.
pub open spec fn signed_decimal(n: int) -> Seq<u8> {
    if n < 0 {
        seq![45u8] + decimal((-n) as nat)
    } else {
        decimal(n as nat)
    }
}

/// The characters of ASCII bytes.
pub open spec fn ascii_chars(s: Seq<u8>) -> Seq<char> {
    Seq::new(s.len(), |i: int| s[i] as char)
}

/// Whether every byte is an ASCII byte.
pub open spec fn all_ascii(s: Seq<u8>) -> bool {
    forall|i: int| 0 <= i < s.len() ==> (#[trigger] s[i]) < 128
}

/// Writing a number and reading its digits gives the number back.
pub proof fn lemma_decimal_value(n: nat)
    ensures
        all_digits(decimal(n)),
        decimal(n).len() >= 1,
        digits_value(decimal(n)) == n,
    decreases n,
{
    if n < 10 {
        let d = decimal(n);
        assert(d.drop_last() =~= Seq::<u8>::empty());
        assert(digits_value(d.drop_last()) == 0);
    } else {
        lemma_decimal_value(n / 10);
        let d = decimal(n);
        assert(d.drop_last() =~= decimal(n / 10));
    }
}

/// Every ASCII text is encoded by one byte for each of its characters.
pub proof fn lemma_ascii_encoding(s: Seq<u8>)
    requires
        all_ascii(s),
    ensures
        encode_utf8(ascii_chars(s)) == s,
{
    let c = ascii_chars(s);
    vstd::utf8::is_ascii_chars_encode_utf8(c);
    assert(encode_utf8(c) =~= s);
}

/// Writes a number in base ten.
pub fn push_decimal(out: &mut Vec<u8>, n: u128)
    ensures
        final(out)@ == old(out)@ + decimal(n as nat),
    decreases n,
{
    if n >= 10 {
        push_decimal(out, n / 10);
    }
    let digit: u8 = (n % 10) as u8;
    out.push(48 + digit);
    proof {
        assert(out@ =~= old(out)@ + decimal(n as nat));
    }
}

/// Writes a whole number in base ten, with a minus sign where it is negative.
pub fn push_signed(out: &mut Vec<u8>, n: i64)
    ensures
        final(out)@ == old(out)@ + signed_decimal(n as int),
{
    if n < 0 {
        out.push(45);
        let magnitude: i128 = -(n as i128);
        push_decimal(out, magnitude as u128);
        proof {
            assert(out@ =~= old(out)@ + signed_decimal(n as int));
        }
    } else {
        push_decimal(out, n as u128);
    }
}

/// The string of ASCII bytes.
pub fn ascii_string(s: &Vec<u8>) -> (text: String)
    requires
        all_ascii(s@),
    ensures
        text@ == ascii_chars(s@),
        encode_utf8(text@) == s@,
{
    let mut text = String::new();
    let mut i: usize = 0;
    while i < s.len()
        invariant
            i <= s.len(),
            text@ == ascii_chars(s@.take(i as int)),
        decreases s.len() - i,
    {
        text.push(s[i] as char);
        i += 1;
        proof {
            assert(text@ =~= ascii_chars(s@.take(i as int)));
        }
    }
    proof {
        assert(s@.take(i as int) =~= s@);
        lemma_ascii_encoding(s@);
    }
    text
}

/// The characters of a string.
pub fn chars_of(text: &str) -> (chars: Vec<char>)
    ensures
        chars@ == text@,
{
    let mut chars: Vec<char> = Vec::new();
    for c in it: text.chars()
        invariant
            it.seq() == text@,
            chars@ == text@.take(it.index()),
    {
        chars.push(c);
        proof {
            assert(chars@ =~= text@.take(it.index() + 1));
        }
    }
    proof {
        assert(chars@ =~= text@);
    }
    chars
}

/// The string of some characters.
pub fn string_of(chars: &[char]) -> (text: String)
    ensures
        text@ == chars@,
{
    let mut text = String::new();
    let mut i: usize = 0;
    while i < chars.len()
        invariant
            i <= chars.len(),
            text@ == chars@.take(i as int),
        decreases chars.len() - i,
    {
        text.push(chars[i]);
        i += 1;
        proof {
            assert(text@ =~= chars@.take(i as int));
        }
    }
    proof {
        assert(text@ =~= chars@);
    }
    text
}

/// The position, from a given one on, of the first occurrence of a character, or the end.
pub open spec fn index_of(s: Seq<char>, c: char, from: int) -> int
    decreases s.len() - from,
{
    if from < 0 || from >= s.len() {
        s.len() as int
    } else if s[from] == c {
        from
    } else {
        index_of(s, c, from + 1)
    }
}

pub proof fn lemma_index_of(s: Seq<char>, c: char, from: int)
    requires
        0 <= from <= s.len(),
    ensures
        from <= index_of(s, c, from) <= s.len(),
        index_of(s, c, from) < s.len() ==> s[index_of(s, c, from)] == c,
        forall|i: int| from <= i < index_of(s, c, from) ==> #[trigger] s[i] != c,
    decreases s.len() - from,
{
    if from < s.len() && s[from] != c {
        lemma_index_of(s, c, from + 1);
    }
}

/// The pieces of a text between the occurrences of a character; there is at least one.
pub open spec fn pieces(s: Seq<char>, c: char) -> Seq<Seq<char>>
    decreases s.len(),
{
    let i = index_of(s, c, 0);
    if i < 0 || i >= s.len() {
        seq![s]
    } else {
        seq![s.take(i)] + pieces(s.skip(i + 1), c)
    }
}

/// The text before and behind the first occurrence of a character.
pub open spec fn cut(s: Seq<char>, c: char) -> Option<(Seq<char>, Seq<char>)> {
    let i = index_of(s, c, 0);
    if i >= s.len() {
        None
    } else {
        Some((s.take(i), s.skip(i + 1)))
    }
}

/// Texts one behind the other with a character between each two.
pub open spec fn joined(parts: Seq<Seq<char>>, c: char) -> Seq<char>
    decreases parts.len(),
{
    if parts.len() == 0 {
        Seq::empty()
    } else if parts.len() == 1 {
        parts[0]
    } else {
        joined(parts.drop_last(), c) + seq![c] + parts.last()
    }
}

/// Whether a text begins with another.
pub open spec fn begins_with(s: Seq<char>, prefix: Seq<char>) -> bool {
    prefix.len() <= s.len() && s.take(prefix.len() as int) == prefix
}

/// The characters that Unicode counts as white space.
pub open spec fn is_space(c: char) -> bool {
    ||| 0x9 <= c as u32 <= 0xd
    ||| c as u32 == 0x20
    ||| c as u32 == 0x85
    ||| c as u32 == 0xa0
    ||| c as u32 == 0x1680
    ||| 0x2000 <= c as u32 <= 0x200a
    ||| c as u32 == 0x2028
    ||| c as u32 == 0x2029
    ||| c as u32 == 0x202f
    ||| c as u32 == 0x205f
    ||| c as u32 == 0x3000
}

/// A text without the characters at its front that have some property.
pub open spec fn without_front(s: Seq<char>, drop: spec_fn(char) -> bool) -> Seq<char>
    decreases s.len(),
{
    if s.len() > 0 && drop(s[0]) {
        without_front(s.skip(1), drop)
    } else {
        s
    }
}

/// A text without the characters at its back that have some property.
pub open spec fn without_back(s: Seq<char>, drop: spec_fn(char) -> bool) -> Seq<char>
    decreases s.len(),
{
    if s.len() > 0 && drop(s.last()) {
        without_back(s.drop_last(), drop)
    } else {
        s
    }
}

/// A text without white space around it.
pub open spec fn trimmed(s: Seq<char>) -> Seq<char> {
    without_back(without_front(s, |c: char| is_space(c)), |c: char| is_space(c))
}

pub open spec fn is_digit_char(c: char) -> bool {
    '0' <= c <= '9'
}

pub open spec fn only_digits(s: Seq<char>) -> bool {
    forall|i: int| 0 <= i < s.len() ==> is_digit_char(#[trigger] s[i])
}

/// The number that digits write in base ten.
pub open spec fn char_value(s: Seq<char>) -> int
    decreases s.len(),
{
    if s.len() == 0 {
        0
    } else {
        char_value(s.drop_last()) * 10 + (s.last() as int - '0' as int)
    }
}

/// The whole number that a text writes: digits behind at most one sign, and nothing else.
pub open spec fn integer_of(s: Seq<char>) -> Option<int> {
    let signed = s.len() > 0 && (s[0] == '+' || s[0] == '-');
    let digits = if signed {
        s.skip(1)
    } else {
        s
    };
    if digits.len() == 0 || !only_digits(digits) {
        None
    } else if signed && s[0] == '-' {
        Some(-char_value(digits))
    } else {
        Some(char_value(digits))
    }
}

/// The text of a whole number as characters.
pub open spec fn number_text(n: int) -> Seq<char> {
    ascii_chars(signed_decimal(n))
}

pub fn is_whitespace(c: char) -> (r: bool)
    ensures
        r == is_space(c),
{
    let n: u32 = c as u32;
    (0x9 <= n && n <= 0xd) || n == 0x20 || n == 0x85 || n == 0xa0 || n == 0x1680 || (0x2000 <= n
        && n <= 0x200a) || n == 0x2028 || n == 0x2029 || n == 0x202f || n == 0x205f || n == 0x3000
}

/// A copy of a stretch of characters.
pub fn copy_chars(s: &[char], from: usize, to: usize) -> (r: Vec<char>)
    requires
        from <= to <= s.len(),
    ensures
        r@ == s@.subrange(from as int, to as int),
{
    let mut r: Vec<char> = Vec::new();
    let mut i: usize = from;
    while i < to
        invariant
            from <= i <= to <= s.len(),
            r@ == s@.subrange(from as int, i as int),
        decreases to - i,
    {
        r.push(s[i]);
        i += 1;
        proof {
            assert(r@ =~= s@.subrange(from as int, i as int));
        }
    }
    r
}

/// Appends characters.
pub fn push_chars(out: &mut Vec<char>, s: &[char])
    ensures
        final(out)@ == old(out)@ + s@,
{
    let mut i: usize = 0;
    while i < s.len()
        invariant
            i <= s.len(),
            out@ == old(out)@ + s@.take(i as int),
        decreases s.len() - i,
    {
        out.push(s[i]);
        i += 1;
        proof {
            assert(out@ =~= old(out)@ + s@.take(i as int));
        }
    }
    proof {
        assert(out@ =~= old(out)@ + s@);
    }
}

/// Appends a string.
pub fn push_text(out: &mut Vec<char>, s: &str)
    ensures
        final(out)@ == old(out)@ + s@,
{
    let chars = chars_of(s);
    push_chars(out, &chars);
}

/// Appends a whole number in base ten.
pub fn push_number(out: &mut Vec<char>, n: i64)
    ensures
        final(out)@ == old(out)@ + number_text(n as int),
{
    let mut digits: Vec<u8> = Vec::new();
    push_signed(&mut digits, n);
    proof {
        lemma_signed_ascii(n as int);
        assert(digits@ =~= signed_decimal(n as int));
    }
    push_ascii(out, &digits);
}

/// Appends a natural number in base ten.
pub fn push_count(out: &mut Vec<char>, n: u128)
    ensures
        final(out)@ == old(out)@ + number_text(n as int),
{
    let mut digits: Vec<u8> = Vec::new();
    push_decimal(&mut digits, n);
    proof {
        lemma_signed_ascii(n as int);
        assert(digits@ =~= signed_decimal(n as int));
    }
    push_ascii(out, &digits);
}

proof fn lemma_signed_ascii(n: int)
    ensures
        all_ascii(signed_decimal(n)),
{
    if n < 0 {
        lemma_decimal_value((-n) as nat);
    } else {
        lemma_decimal_value(n as nat);
    }
    assert forall|i: int| 0 <= i < signed_decimal(n).len() implies (
    #[trigger] signed_decimal(n)[i]) < 128 by {
        if n < 0 && i > 0 {
            assert(is_digit(decimal((-n) as nat)[i - 1]));
        }
    }
}

fn push_ascii(out: &mut Vec<char>, s: &Vec<u8>)
    requires
        all_ascii(s@),
    ensures
        final(out)@ == old(out)@ + ascii_chars(s@),
{
    let mut i: usize = 0;
    while i < s.len()
        invariant
            i <= s.len(),
            out@ == old(out)@ + ascii_chars(s@.take(i as int)),
        decreases s.len() - i,
    {
        out.push(s[i] as char);
        i += 1;
        proof {
            assert(out@ =~= old(out)@ + ascii_chars(s@.take(i as int)));
        }
    }
    proof {
        assert(s@.take(i as int) =~= s@);
    }
}

/// Whether two texts are the same.
pub fn same_chars(a: &[char], b: &[char]) -> (r: bool)
    ensures
        r == (a@ == b@),
{
    if a.len() != b.len() {
        return false;
    }
    let mut i: usize = 0;
    while i < a.len()
        invariant
            i <= a.len() == b.len(),
            forall|k: int| 0 <= k < i ==> #[trigger] a[k] == b[k],
        decreases a.len() - i,
    {
        if a[i] != b[i] {
            proof {
                assert(a@[i as int] != b@[i as int]);
            }
            return false;
        }
        i += 1;
    }
    proof {
        assert(a@ =~= b@);
    }
    true
}

/// Whether a text begins with another.
pub fn has_prefix(s: &[char], prefix: &[char]) -> (r: bool)
    ensures
        r == begins_with(s@, prefix@),
{
    if prefix.len() > s.len() {
        return false;
    }
    let mut i: usize = 0;
    while i < prefix.len()
        invariant
            i <= prefix.len() <= s.len(),
            forall|k: int| 0 <= k < i ==> #[trigger] s[k] == prefix[k],
        decreases prefix.len() - i,
    {
        if s[i] != prefix[i] {
            proof {
                assert(s@.take(prefix.len() as int)[i as int] != prefix@[i as int]);
            }
            return false;
        }
        i += 1;
    }
    proof {
        assert(s@.take(prefix.len() as int) =~= prefix@);
    }
    true
}

/// The position of the first occurrence of a character, from a given position on.
pub fn find_char(s: &[char], c: char, from: usize) -> (r: usize)
    requires
        from <= s.len(),
    ensures
        r == index_of(s@, c, from as int),
        from <= r <= s.len(),
{
    let mut i: usize = from;
    while i < s.len() && s[i] != c
        invariant
            from <= i <= s.len(),
            index_of(s@, c, i as int) == index_of(s@, c, from as int),
        decreases s.len() - i,
    {
        i += 1;
    }
    i
}

proof fn lemma_index_skip(s: Seq<char>, c: char, n: int, from: int)
    requires
        0 <= n,
        0 <= from,
        n + from <= s.len(),
    ensures
        index_of(s.skip(n), c, from) == index_of(s, c, n + from) - n,
    decreases s.len() - n - from,
{
    if n + from < s.len() {
        assert(s.skip(n)[from] == s[n + from]);
        if s[n + from] != c {
            lemma_index_skip(s, c, n, from + 1);
        }
    }
}

/// Texts as their characters.
pub open spec fn views(parts: Seq<Vec<char>>) -> Seq<Seq<char>> {
    Seq::new(parts.len(), |i: int| parts[i]@)
}

/// Strings as their characters.
pub open spec fn string_views(parts: Seq<String>) -> Seq<Seq<char>> {
    Seq::new(parts.len(), |i: int| parts[i]@)
}

/// The pieces of a text between the occurrences of a character.
pub fn split_chars(s: &[char], c: char) -> (r: Vec<Vec<char>>)
    ensures
        views(r@) == pieces(s@, c),
        r.len() >= 1,
{
    let mut r: Vec<Vec<char>> = Vec::new();
    let mut from: usize = 0;
    proof {
        assert(s@.skip(0) =~= s@);
        assert(views(r@) + pieces(s@.skip(0), c) =~= pieces(s@, c));
    }
    loop
        invariant_except_break
            from <= s.len(),
            views(r@) + pieces(s@.skip(from as int), c) == pieces(s@, c),
        ensures
            views(r@) == pieces(s@, c),
            r.len() >= 1,
        decreases s.len() - from,
    {
        let end = find_char(s, c, from);
        let ghost before = r@;
        let ghost rest = s@.skip(from as int);
        proof {
            lemma_index_skip(s@, c, from as int, 0);
            assert(s@.subrange(from as int, end as int) =~= rest.take(end - from));
        }
        r.push(copy_chars(s, from, end));
        proof {
            assert(views(r@) =~= views(before).push(rest.take(end - from)));
        }
        if end == s.len() {
            proof {
                assert(rest.take(end - from) =~= rest);
                assert(views(r@) =~= views(before) + seq![rest]);
            }
            break;
        }
        proof {
            assert(rest.skip(end - from + 1) =~= s@.skip(end + 1));
            assert(views(r@) + pieces(s@.skip(end + 1), c) =~= views(before) + (seq![
                rest.take(end - from),
            ] + pieces(rest.skip(end - from + 1), c)));
        }
        from = end + 1;
    }
    r
}

/// Where a text begins once white space is taken off its front.
pub fn trim_front(s: &[char]) -> (from: usize)
    ensures
        from <= s.len(),
        s@.skip(from as int) == without_front(s@, |c: char| is_space(c)),
{
    let mut from: usize = 0;
    let ghost drop = |c: char| is_space(c);
    proof {
        assert(s@.skip(0) =~= s@);
    }
    while from < s.len() && is_whitespace(s[from])
        invariant
            from <= s.len(),
            drop == (|c: char| is_space(c)),
            without_front(s@.skip(from as int), drop) == without_front(s@, drop),
        decreases s.len() - from,
    {
        proof {
            assert(s@.skip(from as int)[0] == s@[from as int]);
            assert(s@.skip(from as int).skip(1) =~= s@.skip(from + 1));
        }
        from += 1;
    }
    proof {
        if from < s.len() {
            assert(s@.skip(from as int)[0] == s@[from as int]);
        }
    }
    from
}

/// Takes white space off both ends of a text.
pub fn trim(s: &[char]) -> (r: Vec<char>)
    ensures
        r@ == trimmed(s@),
{
    let from = trim_front(s);
    let mut r = copy_chars(s, from, s.len());
    proof {
        assert(r@ =~= s@.skip(from as int));
    }
    let ghost drop = |c: char| is_space(c);
    while r.len() > 0 && is_whitespace(r[r.len() - 1])
        invariant
            drop == (|c: char| is_space(c)),
            without_back(r@, drop) == trimmed(s@),
        decreases r.len(),
    {
        let last = r.pop();
    }
    r
}

/// The whole number that a text writes, where it lies in the range of 64 bits.
pub fn parse_i64(s: &[char]) -> (r: Option<i64>)
    ensures
        r == (match integer_of(s@) {
            Some(n) => if i64::MIN <= n <= i64::MAX {
                Some(n as i64)
            } else {
                None
            },
            None => None,
        }),
{
    let signed: bool = s.len() > 0 && (s[0] == '+' || s[0] == '-');
    let negative: bool = s.len() > 0 && s[0] == '-';
    let from: usize = if signed {
        1
    } else {
        0
    };
    let ghost digits = if signed {
        s@.skip(1)
    } else {
        s@
    };
    proof {
        assert(digits =~= s@.skip(from as int));
    }
    if s.len() == from {
        return None;
    }
    let mut i: usize = from;
    let mut value: i128 = 0;
    let mut huge: bool = false;
    proof {
        assert(digits.take(0) =~= Seq::<char>::empty());
    }
    while i < s.len()
        invariant
            from <= i <= s.len(),
            digits == s@.skip(from as int),
            !only_digits(digits) ==> integer_of(s@) is None,
            forall|k: int| 0 <= k < i - from ==> is_digit_char(#[trigger] digits[k]),
            !huge ==> value == char_value(digits.take(i - from)),
            0 <= value <= 9223372036854775808,
            huge ==> char_value(digits.take(i - from)) > 9223372036854775808,
        decreases s.len() - i,
    {
        let c = s[i];
        proof {
            assert(digits[i - from] == c);
            assert(digits.take(i + 1 - from).drop_last() =~= digits.take(i - from));
        }
        if c < '0' || c > '9' {
            proof {
                assert(!is_digit_char(digits[i - from]));
                assert(!only_digits(digits));
            }
            return None;
        }
        let digit: u32 = c as u32 - 48;
        if !huge {
            let wider: i128 = value * 10 + digit as i128;
            if wider > 9223372036854775808 {
                huge = true;
            } else {
                value = wider;
            }
        }
        i += 1;
    }
    proof {
        assert(digits.take(i - from) =~= digits);
    }
    if huge {
        None
    } else if negative {
        Some((-value) as i64)
    } else if value > 9223372036854775807 {
        None
    } else {
        Some(value as i64)
    }
}

/// A text with a character repeated in front of it up to some width.
pub open spec fn padded_front(s: Seq<char>, width: nat, fill: char) -> Seq<char> {
    if s.len() >= width {
        s
    } else {
        Seq::new((width - s.len()) as nat, |i: int| fill) + s
    }
}

/// A text with spaces behind it up to some width.
pub open spec fn padded_back(s: Seq<char>, width: nat) -> Seq<char> {
    if s.len() >= width {
        s
    } else {
        s + Seq::new((width - s.len()) as nat, |i: int| ' ')
    }
}

/// Appends a number with a character repeated in front of it up to some width.
pub fn push_padded(out: &mut Vec<char>, n: u128, width: usize, fill: char)
    ensures
        final(out)@ == old(out)@ + padded_front(number_text(n as int), width as nat, fill),
{
    let mut text: Vec<char> = Vec::new();
    push_count(&mut text, n);
    let ghost before = out@;
    let mut k: usize = text.len();
    proof {
        assert(text@ =~= number_text(n as int));
        assert(out@ =~= before + Seq::new(0, |i: int| fill));
    }
    while k < width
        invariant
            text.len() <= k,
            k <= width || k == text.len(),
            out@ == before + Seq::new((k - text.len()) as nat, |i: int| fill),
        decreases width - k,
    {
        out.push(fill);
        k += 1;
        proof {
            assert(out@ =~= before + Seq::new((k - text.len()) as nat, |i: int| fill));
        }
    }
    push_chars(out, &text);
    proof {
        assert(out@ =~= before + padded_front(number_text(n as int), width as nat, fill));
    }
}

/// Appends a number with spaces behind it up to some width.
pub fn push_padded_back(out: &mut Vec<char>, n: u128, width: usize)
    ensures
        final(out)@ == old(out)@ + padded_back(number_text(n as int), width as nat),
{
    let mut text: Vec<char> = Vec::new();
    push_count(&mut text, n);
    let ghost digits = text@;
    proof {
        assert(text@ =~= number_text(n as int));
    }
    while text.len() < width
        invariant
            digits.len() <= text.len(),
            text.len() <= width || text.len() == digits.len(),
            text@ == digits + Seq::new((text.len() - digits.len()) as nat, |i: int| ' '),
        decreases width - text.len(),
    {
        text.push(' ');
        proof {
            assert(text@ =~= digits + Seq::new((text.len() - digits.len()) as nat, |i: int| ' '));
        }
    }
    push_chars(out, &text);
    proof {
        assert(text@ =~= padded_back(digits, width as nat));
    }
}

/// Joins texts with a character between each two.
pub fn join_strings(parts: &Vec<String>, c: char) -> (r: Vec<char>)
    ensures
        r@ == joined(string_views(parts@), c),
{
    let mut r: Vec<char> = Vec::new();
    let ghost all = string_views(parts@);
    let mut i: usize = 0;
    proof {
        assert(all.take(0) =~= Seq::<Seq<char>>::empty());
        assert(r@ =~= joined(all.take(0), c));
    }
    while i < parts.len()
        invariant
            i <= parts.len(),
            all == string_views(parts@),
            r@ == joined(all.take(i as int), c),
        decreases parts.len() - i,
    {
        if i > 0 {
            r.push(c);
        }
        push_text(&mut r, parts[i].as_str());
        i += 1;
        proof {
            assert(all.take(i as int).drop_last() =~= all.take(i - 1));
            assert(r@ =~= joined(all.take(i as int), c));
        }
    }
    proof {
        assert(all.take(i as int) =~= all);
    }
    r
}

} // verus!
