//! What holds of the operations on text, whatever the text.
use crate::text::{
    decimal, decimal_value, digit_char, digit_value, ends_in, has_at, is_white, joined,
    law_decimal_reads_back, occurs_in, signed_decimal, split, texts, trim, trim_end,
    trim_start, written_number,
};
use vstd::prelude::*;

verus! {

/// A part occurs in a text just where the text can be taken apart around it.
pub proof fn law_part_stands_between(a: Seq<char>, part: Seq<char>, b: Seq<char>)
    ensures
        has_at(a + part + b, a.len() as int, part),
        occurs_in(part, a + part + b),
{
    assert((a + part + b).subrange(a.len() as int, (a.len() + part.len()) as int) =~= part);
    assert(has_at(a + part + b, a.len() as int, part));
}

/// Where a part occurs in a text, the text is what stands before it, the part, and what stands behind.
pub proof fn law_occurrence_parts_the_text(s: Seq<char>, at: int, part: Seq<char>)
    requires
        has_at(s, at, part),
    ensures
        0 <= at,
        at + part.len() <= s.len(),
        s == s.take(at) + part + s.skip(at + part.len()),
        forall|k: int| 0 <= k < part.len() ==> #[trigger] part[k] == s[at + k],
{
    assert forall|k: int| 0 <= k < part.len() implies #[trigger] part[k] == s[at + k] by {
        assert(s.subrange(at, at + part.len())[k] == s[at + k]);
    }
    assert(s =~= s.take(at) + part + s.skip(at + part.len()));
}

/// A text ends in another just if it is something with the other behind it.
pub proof fn law_end_stands_last(a: Seq<char>, end: Seq<char>, s: Seq<char>)
    ensures
        ends_in(a + end, end),
        ends_in(s, end) ==> end.len() <= s.len() && s == s.take(s.len() - end.len()) + end,
{
    assert((a + end).subrange(a.len() as int, (a.len() + end.len()) as int) =~= end);
    if ends_in(s, end) {
        assert(s =~= s.take(s.len() - end.len()) + end);
    }
}

/// White space is the tab, what parts lines and pages, the space, and the other spaces and separators
/// of Unicode.
pub proof fn law_white_space(c: char)
    ensures
        is_white(c) <==> {
            ||| c == '\t' || c == '\n' || c == '\u{b}' || c == '\u{c}' || c == '\r' || c == ' '
            ||| c == '\u{85}' || c == '\u{a0}' || c == '\u{1680}'
            ||| c == '\u{2000}' || c == '\u{2001}' || c == '\u{2002}' || c == '\u{2003}'
            ||| c == '\u{2004}' || c == '\u{2005}' || c == '\u{2006}' || c == '\u{2007}'
            ||| c == '\u{2008}' || c == '\u{2009}' || c == '\u{200a}'
            ||| c == '\u{2028}' || c == '\u{2029}' || c == '\u{202f}' || c == '\u{205f}'
            ||| c == '\u{3000}'
        },
{
}

/// Whether a text is white space only.
pub open spec fn all_white(s: Seq<char>) -> bool {
    forall|i: int| 0 <= i < s.len() ==> is_white(#[trigger] s[i])
}

/// Whether a text neither begins nor ends with white space.
pub open spec fn is_bare(s: Seq<char>) -> bool {
    s.len() > 0 ==> !is_white(s[0]) && !is_white(s.last())
}

proof fn lemma_trim_start_of(a: Seq<char>, t: Seq<char>)
    requires
        all_white(a),
        t.len() > 0 ==> !is_white(t[0]),
    ensures
        trim_start(a + t) == t,
    decreases a.len(),
{
    if a.len() > 0 {
        assert(is_white(a[0]));
        assert((a + t)[0] == a[0]);
        assert((a + t).drop_first() =~= a.drop_first() + t);
        assert forall|i: int| 0 <= i < a.drop_first().len() implies is_white(
            #[trigger] a.drop_first()[i],
        ) by {
            assert(a.drop_first()[i] == a[i + 1]);
        }
        lemma_trim_start_of(a.drop_first(), t);
    } else {
        assert(a + t =~= t);
    }
}

proof fn lemma_trim_end_of(t: Seq<char>, b: Seq<char>)
    requires
        all_white(b),
        t.len() > 0 ==> !is_white(t.last()),
    ensures
        trim_end(t + b) == t,
    decreases b.len(),
{
    if b.len() > 0 {
        assert(is_white(b[b.len() - 1]));
        assert((t + b).last() == b.last());
        assert((t + b).drop_last() =~= t + b.drop_last());
        assert forall|i: int| 0 <= i < b.drop_last().len() implies is_white(
            #[trigger] b.drop_last()[i],
        ) by {
            assert(b.drop_last()[i] == b[i]);
        }
        lemma_trim_end_of(t, b.drop_last());
    } else {
        assert(t + b =~= t);
    }
}

/// Trimming takes away all the white space around a text and nothing else.
pub proof fn law_trim_takes_the_white_space_around(a: Seq<char>, t: Seq<char>, b: Seq<char>)
    requires
        all_white(a),
        all_white(b),
        is_bare(t),
    ensures
        trim(a + t + b) == t,
{
    if t.len() > 0 {
        assert(a + t + b =~= a + (t + b));
        lemma_trim_start_of(a, t + b);
        lemma_trim_end_of(t, b);
    } else {
        let none = Seq::<char>::empty();
        assert(a + t + b =~= (a + b) + none);
        assert(all_white(a + b));
        lemma_trim_start_of(a + b, none);
        assert(t =~= none);
    }
}

/// What is left when a text is trimmed stands in the text, with white space only before it and behind
/// it, and neither begins nor ends with white space.
pub proof fn law_trimmed_text_is_bare(s: Seq<char>)
    ensures
        is_bare(trim(s)),
        exists|i: int, j: int|
            0 <= i <= j <= s.len() && #[trigger] s.subrange(i, j) == trim(s) && all_white(s.take(i))
                && all_white(s.skip(j)),
{
    let i = lemma_white_before(s);
    let rest = s.skip(i);
    let n = lemma_white_behind(rest);
    let j = i + n;
    assert(s.subrange(i, j) =~= rest.take(n));
    assert(s.skip(j) =~= rest.skip(n));
    if n > 0 {
        assert(s.subrange(i, j)[0] == rest[0]);
        assert(s.subrange(i, j).last() == rest[n - 1]);
    }
}

proof fn lemma_white_before(s: Seq<char>) -> (i: int)
    ensures
        0 <= i <= s.len(),
        trim_start(s) == s.skip(i),
        all_white(s.take(i)),
        i < s.len() ==> !is_white(s[i]),
    decreases s.len(),
{
    if s.len() > 0 && is_white(s[0]) {
        let i = lemma_white_before(s.drop_first());
        assert(s.drop_first().skip(i) =~= s.skip(i + 1));
        assert forall|k: int| 0 <= k < i + 1 implies is_white(#[trigger] s.take(i + 1)[k]) by {
            if k > 0 {
                assert(s.drop_first().take(i)[k - 1] == s[k]);
            }
        }
        i + 1
    } else {
        assert(s.skip(0) =~= s);
        0
    }
}

proof fn lemma_white_behind(s: Seq<char>) -> (j: int)
    ensures
        0 <= j <= s.len(),
        trim_end(s) == s.take(j),
        all_white(s.skip(j)),
        j > 0 ==> !is_white(s[j - 1]),
    decreases s.len(),
{
    if s.len() > 0 && is_white(s.last()) {
        let head = s.drop_last();
        let j = lemma_white_behind(head);
        assert(head.take(j) =~= s.take(j));
        assert forall|k: int| 0 <= k < s.len() - j implies is_white(#[trigger] s.skip(j)[k]) by {
            if k < head.len() - j {
                assert(head.skip(j)[k] == s[j + k]);
            }
        }
        j
    } else {
        assert(s.take(s.len() as int) =~= s);
        s.len() as int
    }
}

/// Joining puts the separator between two parts and nowhere else.
pub proof fn law_joining_puts_separators_between(
    a: Seq<Seq<char>>,
    b: Seq<Seq<char>>,
    sep: Seq<char>,
    part: Seq<char>,
)
    requires
        a.len() > 0,
        b.len() > 0,
    ensures
        joined(Seq::empty(), sep) == Seq::<char>::empty(),
        joined(seq![part], sep) == part,
        joined(a + b, sep) == joined(a, sep) + sep + joined(b, sep),
    decreases b.len(),
{
    if b.len() == 1 {
        assert((a + b).drop_last() =~= a);
        assert((a + b).last() == b[0]);
    } else {
        let head = b.drop_last();
        law_joining_puts_separators_between(a, head, sep, part);
        assert((a + b).drop_last() =~= a + head);
        assert((a + b).last() == b.last());
        assert(joined(a + b, sep) =~= joined(a, sep) + sep + joined(b, sep));
    }
}

/// Joining the parts of a text gives the text back, and no part has a separator in it.
pub proof fn law_joining_undoes_splitting(s: Seq<char>, sep: char)
    ensures
        split(s, sep).len() > 0,
        joined(split(s, sep), seq![sep]) == s,
        forall|i: int| 0 <= i < split(s, sep).len() ==> !(#[trigger] split(s, sep)[i]).contains(sep),
    decreases s.len(),
{
    let parts = split(s, sep);
    if s.len() == 0 {
        assert(s =~= Seq::empty());
    } else {
        let head = s.drop_last();
        law_joining_undoes_splitting(head, sep);
        let before = split(head, sep);
        assert(head.push(s.last()) =~= s);
        if s.last() == sep {
            assert(parts.drop_last() =~= before);
            assert(joined(parts, seq![sep]) =~= s);
            assert forall|i: int| 0 <= i < parts.len() implies !(#[trigger] parts[i]).contains(
                sep,
            ) by {
                if i < before.len() {
                    assert(parts[i] == before[i]);
                }
            }
        } else {
            let last = before.last().push(s.last());
            assert(parts == before.drop_last().push(last));
            assert(parts.drop_last() =~= before.drop_last());
            assert(before[before.len() - 1] == before.last());
            if before.len() == 1 {
                assert(joined(parts, seq![sep]) =~= s);
            } else {
                assert(joined(parts, seq![sep]) =~= joined(before.drop_last(), seq![sep]) + seq![sep]
                    + last);
                assert(joined(parts, seq![sep]) =~= s);
            }
            assert forall|i: int| 0 <= i < parts.len() implies !(#[trigger] parts[i]).contains(
                sep,
            ) by {
                if i < before.len() - 1 {
                    assert(parts[i] == before[i]);
                } else {
                    assert forall|k: int| 0 <= k < last.len() implies last[k] != sep by {
                        if k < before.last().len() {
                            assert(before.last().contains(before.last()[k]));
                        }
                    }
                }
            }
        }
    }
}

/// The digits are the characters from `0` to `9`, each with its own value.
pub proof fn law_digits(c: char, d: int)
    ensures
        digit_value(c) is Some <==> '0' <= c && c <= '9',
        digit_value(c) matches Some(n) ==> n < 10 && c as u32 == '0' as u32 + n,
        0 <= d < 10 ==> digit_char(d) as u32 == '0' as u32 + d,
{
}

/// Whether a text is decimal digits only, and has at least one.
pub open spec fn all_digits(s: Seq<char>) -> bool {
    s.len() > 0 && forall|i: int| 0 <= i < s.len() ==> '0' <= (#[trigger] s[i]) && s[i] <= '9'
}

/// Just the texts of decimal digits are numbers.
pub proof fn law_just_digits_make_a_number(s: Seq<char>)
    ensures
        decimal_value(s) is Some <==> all_digits(s),
    decreases s.len(),
{
    if s.len() > 0 {
        assert(s[s.len() - 1] == s.last());
        law_digits(s.last(), 0);
    }
    if s.len() > 1 {
        let head = s.drop_last();
        law_just_digits_make_a_number(head);
        if all_digits(s) {
            assert forall|i: int| 0 <= i < head.len() implies '0' <= (#[trigger] head[i]) && head[i]
                <= '9' by {
                assert(head[i] == s[i]);
            }
        }
        if decimal_value(s) is Some {
            assert forall|i: int| 0 <= i < s.len() implies '0' <= (#[trigger] s[i]) && s[i]
                <= '9' by {
                if i < head.len() {
                    assert(head[i] == s[i]);
                }
            }
        }
    }
}

/// One more digit behind a number makes it ten times as large and adds the digit.
pub proof fn law_digits_count_in_tens(s: Seq<char>, d: int)
    requires
        decimal_value(s) is Some,
        0 <= d < 10,
    ensures
        decimal_value(s.push(digit_char(d))) == Some((10 * decimal_value(s).unwrap() + d) as nat),
{
    assert(s.push(digit_char(d)).drop_last() =~= s);
}

/// Zeros before a number do not change it, nor does one plus sign; another sign or a second plus sign
/// makes it no number.
pub proof fn law_leading_zeros_and_plus(s: Seq<char>)
    requires
        decimal_value(s) is Some,
    ensures
        decimal_value(seq!['0'] + s) == decimal_value(s),
        written_number(s) == decimal_value(s),
        written_number(seq!['+'] + s) == decimal_value(s),
        written_number(seq!['-'] + s) is None,
        written_number(seq!['+', '+'] + s) is None,
        written_number(seq!['+']) is None,
    decreases s.len(),
{
    law_just_digits_make_a_number(s);
    assert((seq!['+'] + s).skip(1) =~= s);
    let minus = seq!['-'] + s;
    law_just_digits_make_a_number(minus);
    assert(minus[0] == '-');
    let plus = (seq!['+', '+'] + s).skip(1);
    law_just_digits_make_a_number(plus);
    assert(plus[0] == '+');
    assert(seq!['+'].skip(1) =~= Seq::empty());
    let zero = seq!['0'] + s;
    if s.len() == 1 {
        assert(zero.drop_last() =~= seq!['0']);
        assert(zero.last() == s[0]);
        reveal_with_fuel(decimal_value, 2);
    } else {
        assert(zero.drop_last() =~= seq!['0'] + s.drop_last());
        assert(zero.last() == s.last());
        law_leading_zeros_and_plus(s.drop_last());
    }
}

/// A number is written in digits only, and without a zero before it.
pub proof fn law_written_without_leading_zeros(n: nat)
    ensures
        all_digits(decimal(n)),
        decimal(n)[0] == '0' <==> n == 0,
        n == 0 ==> decimal(n).len() == 1,
    decreases n,
{
    law_decimal_reads_back(n);
    law_just_digits_make_a_number(decimal(n));
    if n >= 10 {
        law_written_without_leading_zeros(n / 10);
        assert(decimal(n)[0] == decimal(n / 10)[0]);
    }
}

/// Numbers that differ are written differently.
pub proof fn law_numbers_are_written_apart(a: int, b: int)
    requires
        signed_decimal(a) == signed_decimal(b),
    ensures
        a == b,
{
    law_signed_number_reads_back(a);
    law_signed_number_reads_back(b);
}

/// A number below zero is written with a minus sign before its size, any other without.
pub proof fn law_signed_number_reads_back(n: int)
    ensures
        signed_decimal(n).len() > 0,
        signed_decimal(n)[0] == '-' <==> n < 0,
        n < 0 ==> decimal_value(signed_decimal(n).skip(1)) == Some((-n) as nat),
        n >= 0 ==> decimal_value(signed_decimal(n)) == Some(n as nat),
{
    if n < 0 {
        reveal_strlit("-");
        law_decimal_reads_back((-n) as nat);
        assert(signed_decimal(n).skip(1) =~= decimal((-n) as nat));
    } else {
        law_decimal_reads_back(n as nat);
        law_written_without_leading_zeros(n as nat);
    }
}

/// A list of strings is seen whole: the characters of each, in order.
pub proof fn law_strings_are_seen_whole(strings: Seq<String>, i: int)
    requires
        0 <= i < strings.len(),
    ensures
        texts(strings).len() == strings.len(),
        texts(strings)[i] == strings[i]@,
{
}

/// What stands behind a number does not run into it, where it begins with no digit: two such texts are
/// the same only if the numbers are and what stands behind them is.
pub proof fn law_number_ends_at_a_letter(a: nat, b: nat, x: Seq<char>, y: Seq<char>)
    requires
        x.len() > 0 ==> !('0' <= x[0] && x[0] <= '9'),
        y.len() > 0 ==> !('0' <= y[0] && y[0] <= '9'),
        decimal(a) + x == decimal(b) + y,
    ensures
        a == b,
        x == y,
{
    law_written_without_leading_zeros(a);
    law_written_without_leading_zeros(b);
    law_decimal_reads_back(a);
    law_decimal_reads_back(b);
    let s = decimal(a) + x;
    let m = decimal(a).len() as int;
    let n = decimal(b).len() as int;
    if m < n {
        assert(s[m] == decimal(b)[m]);
        assert(s[m] == x[0]);
    }
    if n < m {
        assert(s[n] == decimal(a)[n]);
        assert((decimal(b) + y)[n] == y[0]);
    }
    assert(decimal(a) =~= s.take(m));
    assert(decimal(b) =~= s.take(m));
    assert(x =~= s.skip(m));
    assert(y =~= s.skip(m));
}

} // verus!
