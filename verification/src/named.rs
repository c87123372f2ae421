//! What names, settings and counts are good for.
use crate::downloads::{
    base_of, cleaned, is_reserved, is_score_name, leaf_of, numbered_name, safe_name, score_files,
    stripped,
};
use crate::fold::Gain;
use crate::meta::text_less;
use crate::mobile::shortened;
use crate::numerals::law_number_reads_back;
use crate::options::{gain_text, grouped, range_text};
use crate::shapes::form;
use crate::tally::{count_of, counted, Count};
use crate::text::{cut, is_digit_char, is_space, lemma_index_of, number_text, only_digits, without_back, without_front};
use vstd::prelude::*;

verus! {

/// Whether a character is one that no system forbids in the name of a file.
pub open spec fn is_plain(c: char) -> bool {
    &&& c as u32 >= 32 && !(127 <= c as u32 <= 159)
    &&& c != '/' && c != '\\' && c != '<' && c != '>' && c != ':' && c != '"' && c != '|' && c
        != '?' && c != '*'
}

/// Whether a file can be saved under a name everywhere: it is made of plain characters, does not end
/// in a dot or a space, and is not that of a device.
pub open spec fn is_safe(s: Seq<char>) -> bool {
    &&& s.len() > 0
    &&& forall|i: int| 0 <= i < s.len() ==> is_plain(#[trigger] s[i])
    &&& s.last() != '.' && s.last() != ' '
    &&& !is_reserved(base_of(s))
}

proof fn lemma_leaf(s: Seq<char>)
    ensures
        forall|i: int|
            0 <= i < leaf_of(s).len() ==> (#[trigger] leaf_of(s)[i]) != '/' && leaf_of(s)[i] != '\\',
        (forall|i: int| 0 <= i < s.len() ==> (#[trigger] s[i]) != '/' && s[i] != '\\') ==> leaf_of(s)
            == s,
    decreases s.len(),
{
    if s.len() > 0 {
        let front = s.drop_last();
        lemma_leaf(front);
        assert(s[s.len() - 1] == s.last());
        assert forall|i: int| 0 <= i < leaf_of(s).len() implies (#[trigger] leaf_of(s)[i]) != '/'
            && leaf_of(s)[i] != '\\' by {
            if i < leaf_of(front).len() {
                assert(leaf_of(s)[i] == leaf_of(front)[i]);
            }
        }
        if forall|i: int| 0 <= i < s.len() ==> (#[trigger] s[i]) != '/' && s[i] != '\\' {
            assert forall|i: int| 0 <= i < front.len() implies (#[trigger] front[i]) != '/' && front[i]
                != '\\' by {
                assert(front[i] == s[i]);
            }
            assert(front.push(s.last()) =~= s);
        }
    }
}

proof fn lemma_without_front(s: Seq<char>, class: spec_fn(char) -> bool)
    ensures
        forall|i: int|
            0 <= i < without_front(s, class).len() ==> s.contains(#[trigger] without_front(s, class)[i]),
        s.len() > 0 && !class(s[0]) ==> without_front(s, class) == s,
    decreases s.len(),
{
    if s.len() > 0 && class(s[0]) {
        let rest = s.skip(1);
        lemma_without_front(rest, class);
        assert forall|i: int| 0 <= i < without_front(s, class).len() implies s.contains(
            #[trigger] without_front(s, class)[i],
        ) by {
            let k = choose|k: int| 0 <= k < rest.len() && rest[k] == without_front(rest, class)[i];
            assert(s[k + 1] == without_front(s, class)[i]);
        }
    }
}

proof fn lemma_without_back(s: Seq<char>, class: spec_fn(char) -> bool)
    ensures
        forall|i: int|
            0 <= i < without_back(s, class).len() ==> s.contains(#[trigger] without_back(s, class)[i]),
        without_back(s, class).len() > 0 ==> !class(without_back(s, class).last()),
        s.len() > 0 && !class(s.last()) ==> without_back(s, class) == s,
    decreases s.len(),
{
    if s.len() > 0 && class(s.last()) {
        let rest = s.drop_last();
        lemma_without_back(rest, class);
        assert forall|i: int| 0 <= i < without_back(s, class).len() implies s.contains(
            #[trigger] without_back(s, class)[i],
        ) by {
            let k = choose|k: int| 0 <= k < rest.len() && rest[k] == without_back(rest, class)[i];
            assert(s[k] == without_back(s, class)[i]);
        }
    }
}

proof fn lemma_stripped(s: Seq<char>)
    ensures
        forall|i: int| 0 <= i < stripped(s).len() ==> s.contains(#[trigger] stripped(s)[i]),
        stripped(s).len() > 0 ==> stripped(s).last() != '.' && stripped(s).last() != ' ',
{
    let space = |c: char| is_space(c);
    let dot = |c: char| c == '.' || c == ' ';
    let a = without_front(s, space);
    let b = without_back(a, space);
    lemma_without_front(s, space);
    lemma_without_back(a, space);
    lemma_without_back(b, dot);
    assert forall|i: int| 0 <= i < stripped(s).len() implies s.contains(#[trigger] stripped(s)[i]) by {
        let k = choose|k: int| 0 <= k < b.len() && b[k] == stripped(s)[i];
        assert(a.contains(b[k]));
        let m = choose|m: int| 0 <= m < a.len() && a[m] == b[k];
        assert(s.contains(a[m]));
    }
}

proof fn lemma_not_reserved(s: Seq<char>)
    requires
        s.len() > 0,
        s[0] == '_',
    ensures
        !is_reserved(base_of(s)),
{
    let b = base_of(s);
    assert(b[0] == '_');
    if b.len() >= 3 {
        assert(b.take(3)[0] == '_');
    }
}

/// Whatever a file is called, the name that it gets is one under which it can be saved everywhere,
/// given that the name it gets for want of a better one is.
pub proof fn law_safe_names(name: Seq<char>, fallback: Seq<char>)
    requires
        is_safe(fallback),
    ensures
        is_safe(safe_name(name, fallback)),
{
    let leaf = leaf_of(name);
    let clean = stripped(cleaned(leaf));
    lemma_leaf(name);
    lemma_stripped(cleaned(leaf));
    assert forall|i: int| 0 <= i < clean.len() implies is_plain(#[trigger] clean[i]) by {
        let k = choose|k: int| 0 <= k < cleaned(leaf).len() && cleaned(leaf)[k] == clean[i];
        assert(leaf[k] != '/' && leaf[k] != '\\');
    }
    if clean.len() > 0 && is_reserved(base_of(clean)) {
        reveal_strlit("_");
        let longer = "_"@ + clean;
        assert(longer[0] == '_');
        lemma_not_reserved(longer);
        assert(longer.last() == clean.last());
        assert forall|i: int| 0 <= i < longer.len() implies is_plain(#[trigger] longer[i]) by {
            if i > 0 {
                assert(longer[i] == clean[i - 1]);
            }
        }
    }
}

/// A name under which a file can be saved everywhere, with no space around it, is kept.
pub proof fn law_safe_names_stay(name: Seq<char>, fallback: Seq<char>)
    requires
        is_safe(name),
        !is_space(name[0]),
        !is_space(name.last()),
    ensures
        safe_name(name, fallback) == name,
{
    assert forall|i: int| 0 <= i < name.len() implies (#[trigger] name[i]) != '/' && name[i] != '\\' by {
        assert(is_plain(name[i]));
    }
    lemma_leaf(name);
    assert(cleaned(name) =~= name) by {
        assert forall|i: int| 0 <= i < name.len() implies cleaned(name)[i] == #[trigger] name[i] by {
            assert(is_plain(name[i]));
        }
    }
    let space = |c: char| is_space(c);
    lemma_without_front(name, space);
    lemma_without_back(name, space);
    lemma_without_back(name, |c: char| c == '.' || c == ' ');
}

/// Files whose own name is taken get names that differ.
pub proof fn law_numbered_names_differ(name: Seq<char>, i: int, j: int)
    requires
        0 <= i,
        0 <= j,
        numbered_name(name, i) == numbered_name(name, j),
    ensures
        i == j,
{
    let n = name.len() as int;
    let base = if n >= 4 && name.skip(n - 4) == seq!['.', 'm', 'm', 'i'] {
        name.take(n - 4)
    } else {
        name
    };
    let a = crate::text::padded_front(number_text(i + 1), 2, '0');
    let b = crate::text::padded_front(number_text(j + 1), 2, '0');
    let front = base + "_"@;
    let x = front + a + ".mmi"@;
    let y = front + b + ".mmi"@;
    assert(x == y);
    assert(a.len() == b.len());
    assert forall|k: int| 0 <= k < a.len() implies a[k] == b[k] by {
        assert(x[front.len() + k] == a[k]);
        assert(y[front.len() + k] == b[k]);
    }
    assert(a =~= b);
    lemma_padded_value(i + 1);
    lemma_padded_value(j + 1);
}

proof fn lemma_padded_value(n: int)
    requires
        n >= 0,
    ensures
        crate::text::char_value(crate::text::padded_front(number_text(n), 2, '0')) == n,
{
    law_number_reads_back(n);
    let s = number_text(n);
    assert(is_digit_char(s[0]));
    if s.len() < 2 {
        let p = crate::text::padded_front(s, 2, '0');
        assert(p =~= seq!['0', s[0]]);
        assert(s =~= seq![s[0]]);
        assert(p.drop_last() =~= seq!['0']);
        assert(seq!['0'].drop_last() =~= Seq::<char>::empty());
        assert(s.drop_last() =~= Seq::<char>::empty());
        reveal_with_fuel(crate::text::char_value, 4);
    } else {
        assert(crate::text::padded_front(s, 2, '0') =~= s);
    }
}

/// The files that hold scores are exactly those whose name ends in `.mmi`, in their order.
pub proof fn law_score_files(names: Seq<Seq<char>>, n: int, i: int)
    requires
        0 <= n <= names.len() <= usize::MAX,
        0 <= i < n,
    ensures
        score_files(names, n).contains(i as usize) <==> is_score_name(names[i]),
        forall|a: int, b: int|
            #![trigger score_files(names, n)[a], score_files(names, n)[b]]
            0 <= a < b < score_files(names, n).len() ==> score_files(names, n)[a] < score_files(
                names,
                n,
            )[b],
        forall|a: int|
            0 <= a < score_files(names, n).len() ==> (#[trigger] score_files(names, n)[a]) < n,
    decreases n,
{
    let all = score_files(names, n);
    let before = score_files(names, n - 1);
    if n - 1 > 0 {
        law_score_files(names, n - 1, if i < n - 1 {
            i
        } else {
            0
        });
    }
    if all.contains(i as usize) {
        let k = choose|k: int| 0 <= k < all.len() && all[k] == i as usize;
        if k < before.len() {
            assert(before[k] == i as usize);
            assert(before[k] < n - 1);
        }
    }
    if i < n - 1 && before.contains(i as usize) {
        let k = choose|k: int| 0 <= k < before.len() && before[k] == i as usize;
        assert(all[k] == i as usize);
    }
    if i == n - 1 && is_score_name(names[i]) {
        assert(all[all.len() - 1] == i as usize);
    }
    assert forall|a: int, b: int|
        #![trigger all[a], all[b]]
        0 <= a < b < all.len() implies all[a] < all[b] by {
        assert(all[a] == before[a]);
        if b < before.len() {
            assert(all[b] == before[b]);
        }
    }
    assert forall|a: int| 0 <= a < all.len() implies (#[trigger] all[a]) < n by {
        if a < before.len() {
            assert(all[a] == before[a]);
        }
    }
}

proof fn lemma_cut(a: Seq<char>, b: Seq<char>, c: char)
    requires
        forall|i: int| 0 <= i < a.len() ==> #[trigger] a[i] != c,
    ensures
        cut(a + seq![c] + b, c) == Some((a, b)),
{
    let s = a + seq![c] + b;
    lemma_index_of(s, c, 0);
    assert(s[a.len() as int] == c);
    let i = crate::text::index_of(s, c, 0);
    if i < a.len() {
        assert(s[i] == a[i]);
    }
    assert(i == a.len());
    assert(s.take(i) =~= a);
    assert(s.skip(i + 1) =~= b);
}

/// A range that is written as two numbers with a colon between them is read as these numbers,
/// exactly where they lead from 1 to 15 at most and do not go down.
pub proof fn law_range_reads_back(min: int, max: int)
    ensures
        range_text(number_text(min) + ":"@ + number_text(max)) == (if 1 <= min && min <= max && max
            <= 15 {
            Some((min, max))
        } else {
            None
        }),
{
    law_number_reads_back(min);
    law_number_reads_back(max);
    reveal_strlit(":");
    assert(":"@ =~= seq![':']);
    let low = number_text(min);
    assert forall|i: int| 0 <= i < low.len() implies #[trigger] low[i] != ':' by {
        if min < 0 && i > 0 {
            assert(is_digit_char(low.skip(1)[i - 1]));
        } else if min >= 0 {
            assert(is_digit_char(low[i]));
        }
    }
    lemma_cut(low, number_text(max), ':');
}

/// A number by which the volume is moved is read as it is written.
pub proof fn law_gain_reads_back(n: i32)
    ensures
        gain_text(number_text(n as int)) == Some(Gain::Shift(n)),
        gain_text("auto"@) == Some(Gain::Auto),
        gain_text("none"@) == Some(Gain::Unchanged),
{
    law_number_reads_back(n as int);
    let s = number_text(n as int);
    reveal_strlit("auto");
    reveal_strlit("none");
    if n >= 0 {
        assert(is_digit_char(s[0]));
    }
    assert(s[0] != 'a' && s[0] != 'n');
    assert("auto"@[0] == 'a');
    assert("none"@[0] == 'n');
}

proof fn lemma_grouped_len(s: Seq<char>)
    ensures
        grouped(s).len() >= s.len(),
        grouped(s).len() == s.len() + (if s.len() == 0 {
            0
        } else {
            (s.len() - 1) / 3
        }),
    decreases s.len(),
{
    if s.len() > 3 {
        lemma_grouped_len(s.take(s.len() - 3));
    }
}

/// Digits keep their order when commas are put between them, and from behind there is a comma in
/// every fourth place and nowhere else.
pub proof fn law_grouped(s: Seq<char>, k: int)
    requires
        only_digits(s),
        0 <= k < grouped(s).len(),
    ensures
        ({
            let c = grouped(s)[grouped(s).len() - 1 - k];
            if k % 4 == 3 {
                c == ','
            } else {
                c == s[s.len() - 1 - (k - k / 4)]
            }
        }),
    decreases s.len(),
{
    lemma_grouped_len(s);
    if s.len() > 3 {
        let front = s.take(s.len() - 3);
        let all = grouped(s);
        lemma_grouped_len(front);
        assert(only_digits(front)) by {
            assert forall|i: int| 0 <= i < front.len() implies is_digit_char(#[trigger] front[i]) by {
                assert(is_digit_char(s[i]));
            }
        }
        let n = grouped(front).len() as int;
        assert(all.len() == n + 4);
        if k >= 4 {
            law_grouped(front, k - 4);
            assert(all[all.len() - 1 - k] == grouped(front)[n - 1 - (k - 4)]);
            assert((k - 4) % 4 == k % 4);
            assert((k - 4) / 4 == k / 4 - 1);
            if k % 4 != 3 {
                let at = front.len() - 1 - ((k - 4) - (k - 4) / 4);
                assert(at == s.len() - 1 - (k - k / 4));
                assert(0 <= at < front.len());
            }
        } else if k == 3 {
            assert(all[n] == ',');
        } else {
            assert(all[n + 3 - k] == s.skip(s.len() - 3)[2 - k]);
        }
    }
}

/// Whether counted texts ascend.
pub open spec fn texts_ascend(counts: Seq<Count>) -> bool {
    forall|i: int, j: int|
        #![trigger counts[i], counts[j]]
        0 <= i < j < counts.len() ==> text_less(counts[i].0, counts[j].0)
}

proof fn lemma_not_counted(counts: Seq<Count>, key: Seq<char>)
    requires
        forall|i: int| 0 <= i < counts.len() ==> (#[trigger] counts[i]).0 != key,
    ensures
        count_of(counts, key) == 0,
    decreases counts.len(),
{
    if counts.len() > 0 {
        let front = counts.drop_last();
        assert forall|i: int| 0 <= i < front.len() implies (#[trigger] front[i]).0 != key by {
            assert(front[i] == counts[i]);
        }
        lemma_not_counted(front, key);
        assert(counts[counts.len() - 1].0 != key);
    }
}

/// Counting a text raises its own count by one and leaves every other as it was.
pub proof fn law_counting(counts: Seq<Count>, key: Seq<char>, other: Seq<char>)
    requires
        texts_ascend(counts),
    ensures
        count_of(counted(counts, key), other) == count_of(counts, other) + (if other == key {
            1int
        } else {
            0int
        }),
    decreases counts.len(),
{
    let n = counts.len() as int;
    let new = counted(counts, key);
    if n == 0 || text_less(counts.last().0, key) {
        assert(new.drop_last() =~= counts);
        if other == key {
            assert forall|i: int| 0 <= i < n implies (#[trigger] counts[i]).0 != key by {
                crate::meta::lemma_text_order(counts[n - 1].0, key);
                crate::meta::lemma_text_order(counts[i].0, counts[n - 1].0);
                if counts[i].0 == key && i < n - 1 {
                    assert(text_less(counts[i].0, counts[n - 1].0));
                }
            }
            lemma_not_counted(counts, key);
        }
    } else if counts.last().0 == key {
        assert(new.drop_last() =~= counts.drop_last());
    } else {
        let front = counts.drop_last();
        assert(texts_ascend(front)) by {
            assert forall|i: int, j: int|
                #![trigger front[i], front[j]]
                0 <= i < j < front.len() implies text_less(front[i].0, front[j].0) by {
                assert(front[i] == counts[i] && front[j] == counts[j]);
            }
        }
        law_counting(front, key, other);
        assert(new.drop_last() =~= counted(front, key));
    }
}

proof fn lemma_form_run(a: Seq<char>, d: Seq<char>)
    requires
        d.len() > 0,
        only_digits(d),
        a.len() > 0 ==> !is_digit_char(a.last()),
    ensures
        form(a + d) == form(a).push('#'),
    decreases d.len(),
{
    let s = a + d;
    let front = d.drop_last();
    assert(is_digit_char(d[d.len() - 1]));
    assert(s.last() == d.last());
    assert(s.drop_last() =~= a + front);
    if front.len() > 0 {
        assert(only_digits(front)) by {
            assert forall|i: int| 0 <= i < front.len() implies is_digit_char(#[trigger] front[i]) by {
                assert(is_digit_char(d[i]));
            }
        }
        lemma_form_run(a, front);
        assert(is_digit_char(d[d.len() - 2]));
        assert(s[s.len() - 2] == d[d.len() - 2]);
    } else {
        assert(a + front =~= a);
        if a.len() > 0 {
            assert(s[s.len() - 2] == a.last());
        }
    }
}

proof fn lemma_form_behind(a: Seq<char>, x: Seq<char>, y: Seq<char>, b: Seq<char>)
    requires
        form(a + x) == form(a + y),
        x.len() > 0,
        y.len() > 0,
        only_digits(x),
        only_digits(y),
        b.len() > 0 ==> !is_digit_char(b[0]),
    ensures
        form(a + x + b) == form(a + y + b),
    decreases b.len(),
{
    if b.len() == 0 {
        assert(a + x + b =~= a + x);
        assert(a + y + b =~= a + y);
    } else {
        let front = b.drop_last();
        if front.len() > 0 {
            assert(front[0] == b[0]);
        }
        lemma_form_behind(a, x, y, front);
        let s = a + x + b;
        let t = a + y + b;
        assert(s.drop_last() =~= a + x + front);
        assert(t.drop_last() =~= a + y + front);
        assert(s.last() == b.last() && t.last() == b.last());
        if b.len() > 1 {
            assert(s[s.len() - 2] == b[b.len() - 2]);
            assert(t[t.len() - 2] == b[b.len() - 2]);
        }
    }
}

/// The form of a command does not hang on its numbers: two that differ only in a number have the
/// same one.
pub proof fn law_forms_leave_numbers_out(a: Seq<char>, x: Seq<char>, y: Seq<char>, b: Seq<char>)
    requires
        x.len() > 0,
        y.len() > 0,
        only_digits(x),
        only_digits(y),
        a.len() > 0 ==> !is_digit_char(a.last()),
        b.len() > 0 ==> !is_digit_char(b[0]),
    ensures
        form(a + x + b) == form(a + y + b),
{
    lemma_form_run(a, x);
    lemma_form_run(a, y);
    lemma_form_behind(a, x, y, b);
}

/// A command without numbers is its own form.
pub proof fn law_forms_keep_signs(s: Seq<char>)
    requires
        forall|i: int| 0 <= i < s.len() ==> !is_digit_char(#[trigger] s[i]),
    ensures
        form(s) == s,
    decreases s.len(),
{
    if s.len() > 0 {
        let front = s.drop_last();
        assert forall|i: int| 0 <= i < front.len() implies !is_digit_char(#[trigger] front[i]) by {
            assert(front[i] == s[i]);
        }
        law_forms_keep_signs(front);
        assert(!is_digit_char(s[s.len() - 1]));
        assert(front.push(s.last()) =~= s);
    }
}

/// A length is brought to two whole notes at most by taking dotted whole notes off, and no more of
/// them than need be.
pub proof fn law_lengths_are_shortened(ticks: int)
    requires
        ticks >= 0,
    ensures
        0 <= shortened(ticks) <= 768,
        (ticks - shortened(ticks)) % 576 == 0,
        shortened(ticks) <= ticks,
        shortened(ticks) < ticks ==> shortened(ticks) + 576 > 768,
{
}

} // verus!
