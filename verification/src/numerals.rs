//! Whole numbers are written so that they can be read.
use crate::text::{all_digits, ascii_chars, char_value, decimal, digits_value, integer_of, is_digit, is_digit_char, lemma_decimal_value, number_text, only_digits, signed_decimal};
use vstd::prelude::*;

verus! {

proof fn lemma_same_value(s: Seq<u8>)
    requires
        all_digits(s),
    ensures
        char_value(ascii_chars(s)) == digits_value(s),
        only_digits(ascii_chars(s)),
    decreases s.len(),
{
    let c = ascii_chars(s);
    assert forall|i: int| 0 <= i < c.len() implies is_digit_char(#[trigger] c[i]) by {
        assert(is_digit(s[i]));
    }
    if s.len() > 0 {
        let front = s.drop_last();
        assert forall|i: int| 0 <= i < front.len() implies is_digit(#[trigger] front[i]) by {
            assert(is_digit(s[i]));
        }
        lemma_same_value(front);
        assert(c.drop_last() =~= ascii_chars(front));
        assert(is_digit(s[s.len() - 1]));
    }
}

/// A number that has been written reads as itself; what is written are digits, behind a minus
/// sign where the number is negative.
pub proof fn law_number_reads_back(n: int)
    ensures
        integer_of(number_text(n)) == Some(n),
        number_text(n).len() > 0,
        n >= 0 ==> only_digits(number_text(n)),
        n < 0 ==> number_text(n)[0] == '-' && only_digits(number_text(n).skip(1)),
{
    let s = number_text(n);
    if n >= 0 {
        lemma_decimal_value(n as nat);
        lemma_same_value(decimal(n as nat));
        assert(is_digit_char(s[0]));
    } else {
        let d = decimal((-n) as nat);
        lemma_decimal_value((-n) as nat);
        lemma_same_value(d);
        assert(s.skip(1) =~= ascii_chars(d));
        assert(s[0] == signed_decimal(n)[0] as char);
    }
}

/// Two numbers that are written alike are the same.
pub proof fn law_numbers_differ(m: int, n: int)
    requires
        number_text(m) == number_text(n),
    ensures
        m == n,
{
    law_number_reads_back(m);
    law_number_reads_back(n);
}

} // verus!
