//! What holds of texts, lines and numerals: how they are put together is how they are read.
use vstd::prelude::*;
use crate::text::{
    decimal, digits_value, first_index, hex_text, is_digit, is_white, last_index, lines, optional_text, padded, parse_unsigned,
    signed_decimal, text_before, texts, trim, trim_end, trim_start, unsigned_digits,
};

verus! {

/// A list of strings has the text of each string at its place.
pub proof fn law_texts_stand_in_order(strings: Seq<String>)
    ensures
        texts(strings).len() == strings.len(),
        forall|i: int| 0 <= i < strings.len() ==> (#[trigger] strings[i])@ == texts(strings)[i],
{
}

/// A text is in a list of strings exactly if one of the strings has it.
pub proof fn law_text_in_a_list(strings: Seq<String>, text: Seq<char>)
    ensures
        texts(strings).contains(text) <==> exists|i: int|
            0 <= i < strings.len() && (#[trigger] strings[i])@ == text,
{
    if exists|i: int| 0 <= i < strings.len() && (#[trigger] strings[i])@ == text {
        let i = choose|i: int| 0 <= i < strings.len() && (#[trigger] strings[i])@ == text;
        assert(texts(strings)[i] == text);
    }
    if texts(strings).contains(text) {
        let i = choose|i: int| 0 <= i < texts(strings).len() && texts(strings)[i] == text;
        assert(strings[i]@ == text);
    }
}

// ---------------------------------------------------------------------------------------------
// Order
// ---------------------------------------------------------------------------------------------

/// Whether two texts are the same up to a place at which the first one ends or has the smaller
/// character.
pub open spec fn smaller_at(a: Seq<char>, b: Seq<char>, n: int) -> bool {
    &&& 0 <= n <= a.len()
    &&& n < b.len()
    &&& forall|i: int| 0 <= i < n ==> a[i] == b[i]
    &&& n == a.len() || a[n] < b[n]
}

/// One text comes before another exactly if it ends, or has the smaller character, at the first place
/// where they differ.
pub proof fn law_order_of_texts(a: Seq<char>, b: Seq<char>)
    ensures
        text_before(a, b) <==> exists|n: int| smaller_at(a, b, n),
    decreases a.len(),
{
    if a.len() > 0 && b.len() > 0 && a[0] == b[0] {
        let (c, d) = (a.drop_first(), b.drop_first());
        law_order_of_texts(c, d);
        if text_before(c, d) {
            let n = choose|n: int| smaller_at(c, d, n);
            assert forall|i: int| 0 <= i < n + 1 implies a[i] == b[i] by {
                if i > 0 {
                    assert(c[i - 1] == d[i - 1]);
                }
            }
            assert(smaller_at(a, b, n + 1));
        }
        if exists|n: int| smaller_at(a, b, n) {
            let n = choose|n: int| smaller_at(a, b, n);
            assert(n > 0);
            assert(smaller_at(c, d, n - 1));
        }
    } else if b.len() > 0 && (a.len() == 0 || a[0] < b[0]) {
        assert(smaller_at(a, b, 0));
    } else if exists|n: int| smaller_at(a, b, n) {
        let n = choose|n: int| smaller_at(a, b, n);
        if n > 0 {
            assert(a[0] == b[0]);
        }
    }
}

// ---------------------------------------------------------------------------------------------
// White space and lines
// ---------------------------------------------------------------------------------------------

/// The white space are 25 characters, of which six are ASCII.
pub proof fn law_white_space(c: char)
    ensures
        is_white(c) <==> {
            let n = c as int;
            ||| n == 9 || n == 10 || n == 11 || n == 12 || n == 13 || n == 32
            ||| n == 133 || n == 160 || n == 5760
            ||| 8192 <= n <= 8202
            ||| n == 8232 || n == 8233 || n == 8239 || n == 8287 || n == 12288
        },
{
}

/// Whether a text is white space throughout.
pub open spec fn all_white(s: Seq<char>) -> bool {
    forall|i: int| 0 <= i < s.len() ==> is_white(#[trigger] s[i])
}

/// Whether a text neither starts nor ends with white space.
pub open spec fn no_white_around(s: Seq<char>) -> bool {
    s.len() > 0 ==> !is_white(s[0]) && !is_white(s.last())
}

pub(crate) proof fn lemma_trim_start(before: Seq<char>, rest: Seq<char>)
    requires
        all_white(before),
        rest.len() > 0 ==> !is_white(rest[0]),
    ensures
        trim_start(before + rest) == rest,
    decreases before.len(),
{
    if before.len() > 0 {
        assert(is_white(before[0]));
        assert((before + rest).drop_first() =~= before.drop_first() + rest);
        assert forall|i: int| 0 <= i < before.drop_first().len() implies is_white(
            #[trigger] before.drop_first()[i],
        ) by {
            assert(is_white(before[i + 1]));
        }
        lemma_trim_start(before.drop_first(), rest);
    } else {
        assert(before + rest =~= rest);
    }
}

pub(crate) proof fn lemma_trim_end(kept: Seq<char>, after: Seq<char>)
    requires
        all_white(after),
        kept.len() > 0 ==> !is_white(kept.last()),
    ensures
        trim_end(kept + after) == kept,
    decreases after.len(),
{
    if after.len() > 0 {
        assert(is_white(after[after.len() - 1]));
        assert((kept + after).drop_last() =~= kept + after.drop_last());
        assert forall|i: int| 0 <= i < after.drop_last().len() implies is_white(
            #[trigger] after.drop_last()[i],
        ) by {
            assert(is_white(after[i]));
        }
        lemma_trim_end(kept, after.drop_last());
    } else {
        assert(kept + after =~= kept);
    }
}

/// Of a text with white space around it the text remains, whatever the white space is.
pub proof fn law_trimming(before: Seq<char>, kept: Seq<char>, after: Seq<char>)
    requires
        all_white(before),
        all_white(after),
        no_white_around(kept),
    ensures
        trim(before + kept + after) == kept,
{
    if kept.len() == 0 {
        let all = before + after;
        assert(before + kept + after =~= all + Seq::<char>::empty());
        assert forall|i: int| 0 <= i < all.len() implies is_white(#[trigger] all[i]) by {
            if i < before.len() {
                assert(is_white(before[i]));
            } else {
                assert(is_white(after[i - before.len()]));
            }
        }
        lemma_trim_start(all, Seq::empty());
    } else {
        assert(before + kept + after =~= before + (kept + after));
        assert((kept + after)[0] == kept[0]);
        lemma_trim_start(before, kept + after);
        lemma_trim_end(kept, after);
    }
}

/// A character that stands between two pieces of text, of which the second one does not hold it, is its
/// last occurrence; where the first one does not hold it, it is its first.
pub proof fn law_position_of_a_character(before: Seq<char>, c: char, after: Seq<char>)
    ensures
        !after.contains(c) ==> last_index(before + seq![c] + after, c) == Some(before.len() as int),
        !before.contains(c) ==> first_index(before + seq![c] + after, c) == Some(before.len() as int),
        !before.contains(c) ==> last_index(before, c) is None && first_index(before, c) is None,
{
    let s = before + seq![c] + after;
    let n = before.len() as int;
    crate::text::lemma_first_index_is(s, c);
    crate::text::lemma_last_index_is(s, c);
    crate::text::lemma_first_index_is(before, c);
    crate::text::lemma_last_index_is(before, c);
    assert(s[n] == c);
    assert(s.contains(c));
    let first = first_index(s, c)->0;
    let last = last_index(s, c)->0;
    if first < n {
        assert(before[first] == c);
    }
    if last > n {
        assert(after[last - n - 1] == c);
    }
}

proof fn lemma_line_end(line: Seq<char>, rest: Seq<char>)
    requires
        !line.contains('\n'),
    ensures
        first_index(line + seq!['\n'] + rest, '\n') == Some(line.len() as int),
{
    let s = line + seq!['\n'] + rest;
    crate::text::lemma_first_index_is(s, '\n');
    assert(s[line.len() as int] == '\n');
    assert(s.contains('\n'));
    let i = first_index(s, '\n')->0;
    if i < line.len() {
        assert(line[i] == s[i]);
    }
}

/// A line that is put before a text, with a line feed or with a carriage return and a line feed behind
/// it, is its first line, and the lines of the text follow. What ends without a line feed is a line
/// too, unless there is nothing.
pub proof fn law_lines(line: Seq<char>, rest: Seq<char>)
    requires
        !line.contains('\n'),
    ensures
        line.len() == 0 || line.last() != '\r' ==> lines(line + seq!['\n'] + rest) == seq![line]
            + lines(rest),
        lines(line + seq!['\r', '\n'] + rest) == seq![line] + lines(rest),
        line.len() > 0 ==> lines(line) == seq![line],
        lines(Seq::empty()) == Seq::<Seq<char>>::empty(),
{
    let plain = line + seq!['\n'] + rest;
    lemma_line_end(line, rest);
    assert(plain.take(line.len() as int) =~= line);
    assert(plain.skip(line.len() as int + 1) =~= rest);
    let longer = line + seq!['\r'];
    let other = line + seq!['\r', '\n'] + rest;
    assert(other =~= longer + seq!['\n'] + rest);
    assert forall|i: int| 0 <= i < longer.len() implies longer[i] != '\n' by {
        if i < line.len() {
            assert(line[i] != '\n');
        }
    }
    lemma_line_end(longer, rest);
    assert(other.take(longer.len() as int) =~= longer);
    assert(other.skip(longer.len() as int + 1) =~= rest);
    assert(longer.drop_last() =~= line);
    crate::text::lemma_first_index_is(line, '\n');
    if first_index(line, '\n') is Some {
        assert(line.contains(line[first_index(line, '\n')->0]));
    }
}

/// Texts, each with a line feed behind it.
pub open spec fn with_line_feeds(all: Seq<Seq<char>>) -> Seq<char>
    decreases all.len(),
{
    if all.len() == 0 {
        Seq::empty()
    } else {
        all[0] + seq!['\n'] + with_line_feeds(all.drop_first())
    }
}

/// Whether a text can stand in a line of its own.
pub open spec fn is_line(s: Seq<char>) -> bool {
    !s.contains('\n') && (s.len() == 0 || s.last() != '\r')
}

/// What is written line by line is read line by line.
pub proof fn law_lines_round_trip(all: Seq<Seq<char>>)
    requires
        forall|i: int| 0 <= i < all.len() ==> is_line(#[trigger] all[i]),
    ensures
        lines(with_line_feeds(all)) == all,
    decreases all.len(),
{
    if all.len() > 0 {
        let rest = all.drop_first();
        assert(is_line(all[0]));
        assert forall|i: int| 0 <= i < rest.len() implies is_line(#[trigger] rest[i]) by {
            assert(is_line(all[i + 1]));
        }
        law_lines_round_trip(rest);
        law_lines(all[0], with_line_feeds(rest));
        assert(seq![all[0]] + rest =~= all);
    } else {
        law_lines(Seq::empty(), Seq::empty());
        assert(all =~= Seq::empty());
    }
}

// ---------------------------------------------------------------------------------------------
// Numerals
// ---------------------------------------------------------------------------------------------

/// A numeral has one more digit than that of the tenth part, namely that of the ones; below ten it is
/// the digit alone.
pub proof fn law_decimal_numerals(n: nat, d: nat)
    requires
        d < 10,
    ensures
        n > 0 ==> decimal(10 * n + d) == decimal(n).push("0123456789"@[d as int]),
        decimal(d) == seq!["0123456789"@[d as int]],
{
    reveal_strlit("0123456789");
    if n > 0 {
        assert((10 * n + d) / 10 == n);
        assert((10 * n + d) % 10 == d);
    }
}

/// The value of a digit.
pub open spec fn digit_is(c: char, d: nat) -> bool {
    d < 10 && c == "0123456789"@[d as int]
}

/// A digit behind others makes ten times their number and its own, and nothing spells nothing.
pub proof fn law_digits(s: Seq<char>, c: char, d: nat)
    requires
        digit_is(c, d),
    ensures
        is_digit(c),
        digits_value(s.push(c)) == 10 * digits_value(s) + d,
        digits_value(Seq::empty()) == 0,
{
    reveal_strlit("0123456789");
    assert(s.push(c).drop_last() =~= s);
}

pub(crate) proof fn lemma_decimal(n: nat)
    ensures
        digits_value(decimal(n)) == n,
        decimal(n).len() > 0,
        forall|i: int| 0 <= i < decimal(n).len() ==> is_digit(#[trigger] decimal(n)[i]),
    decreases n,
{
    reveal_with_fuel(digits_value, 2);
    if n >= 10 {
        lemma_decimal(n / 10);
        assert(decimal(n).drop_last() =~= decimal(n / 10));
    } else {
        assert(decimal(n).drop_last() =~= Seq::empty());
    }
}

proof fn lemma_zeros(zeros: Seq<char>, s: Seq<char>)
    requires
        forall|i: int| 0 <= i < zeros.len() ==> (#[trigger] zeros[i]) == '0',
    ensures
        digits_value(zeros + s) == digits_value(s),
    decreases s.len(), zeros.len(),
{
    if s.len() > 0 {
        assert((zeros + s).drop_last() =~= zeros + s.drop_last());
        lemma_zeros(zeros, s.drop_last());
    } else if zeros.len() > 0 {
        let fewer = zeros.drop_last();
        assert forall|i: int| 0 <= i < fewer.len() implies (#[trigger] fewer[i]) == '0' by {
            assert(zeros[i] == '0');
        }
        lemma_zeros(fewer, s);
        assert(fewer + s =~= fewer);
        assert(zeros + s =~= zeros);
        assert(zeros[zeros.len() - 1] == '0');
        assert(s =~= Seq::empty());
    } else {
        assert(zeros + s =~= s);
    }
}

/// A number is read from its numeral if it is not too large, with zeros before it or without, and with
/// a plus sign before it or without.
pub proof fn law_numerals_are_read(n: nat, max: nat, zeros: Seq<char>)
    requires
        forall|i: int| 0 <= i < zeros.len() ==> (#[trigger] zeros[i]) == '0',
    ensures
        parse_unsigned(zeros + decimal(n), max) == if n <= max {
            Some(n)
        } else {
            None
        },
        parse_unsigned(seq!['+'] + zeros + decimal(n), max) == if n <= max {
            Some(n)
        } else {
            None
        },
{
    let d = zeros + decimal(n);
    lemma_decimal(n);
    lemma_zeros(zeros, decimal(n));
    assert forall|i: int| 0 <= i < d.len() implies is_digit(#[trigger] d[i]) by {
        if i < zeros.len() {
            assert(zeros[i] == '0');
        } else {
            assert(is_digit(decimal(n)[i - zeros.len()]));
        }
    }
    assert(is_digit(d[0]));
    assert(unsigned_digits(d) == d);
    let signed = seq!['+'] + zeros + decimal(n);
    assert(signed.drop_first() =~= d);
}

/// What holds anything but digits, a plus sign at its start apart, spells no number; nor does what holds
/// no digit.
pub proof fn law_no_numerals(s: Seq<char>, max: nat, i: int)
    requires
        s.len() == 0 || s == seq!['+'] || (0 <= i < s.len() && !('0' <= s[i] <= '9') && !(i == 0
            && s[i] == '+')),
    ensures
        parse_unsigned(s, max) is None,
{
    let d = unsigned_digits(s);
    if s == seq!['+'] {
        assert(d =~= Seq::empty());
    } else if s.len() > 0 {
        if s[0] == '+' {
            assert(d[i - 1] == s[i]);
            assert(!is_digit(d[i - 1]));
        } else {
            assert(!is_digit(d[i]));
        }
    }
}

/// A padded numeral is the numeral with as many zeros before it as it takes to fill the width.
pub proof fn law_padded_numerals(n: nat, width: nat)
    ensures
        ({
            let zeros = padded(n, width).len() - decimal(n).len();
            &&& padded(n, width).len() == if decimal(n).len() < width {
                width
            } else {
                decimal(n).len()
            }
            &&& padded(n, width).skip(zeros) == decimal(n)
            &&& forall|i: int| 0 <= i < zeros ==> (#[trigger] padded(n, width)[i]) == '0'
        }),
        digits_value(padded(n, width)) == n,
{
    let p = padded(n, width);
    let zeros = p.len() - decimal(n).len();
    assert(p.skip(zeros) =~= decimal(n));
    assert(p =~= p.take(zeros) + decimal(n));
    lemma_zeros(p.take(zeros), decimal(n));
    lemma_decimal(n);
}

/// The numeral of a negative number is that of its magnitude behind a minus sign.
pub proof fn law_signed_numerals(n: nat)
    ensures
        signed_decimal(n as int) == decimal(n),
        n > 0 ==> signed_decimal(-(n as int)) == "-"@ + decimal(n),
{
    reveal_strlit("-");
    assert("-"@ =~= seq!['-']);
}

/// Two numbers have the same numeral only if they are the same.
pub proof fn law_numerals_differ(m: nat, n: nat)
    requires
        decimal(m) == decimal(n),
    ensures
        m == n,
{
    lemma_decimal(m);
    lemma_decimal(n);
}

// ---------------------------------------------------------------------------------------------
// Hexadecimal
// ---------------------------------------------------------------------------------------------

/// Every byte has two digits, the one for its sixteenth part first.
pub proof fn law_hexadecimal(bytes: Seq<u8>, i: int)
    requires
        0 <= i < bytes.len(),
    ensures
        hex_text(bytes).len() == 2 * bytes.len(),
        hex_text(bytes)[2 * i] == "0123456789abcdef"@[bytes[i] as int / 16],
        hex_text(bytes)[2 * i + 1] == "0123456789abcdef"@[bytes[i] as int % 16],
{
    reveal_strlit("0123456789abcdef");
    assert((2 * i) / 2 == i && (2 * i) % 2 == 0);
    assert((2 * i + 1) / 2 == i && (2 * i + 1) % 2 == 1);
}

/// Two byte strings have the same digits only if they are the same.
pub proof fn law_hexadecimal_differs(first: Seq<u8>, second: Seq<u8>)
    requires
        hex_text(first) == hex_text(second),
    ensures
        first == second,
{
    assert(hex_text(first).len() == 2 * first.len());
    assert(hex_text(second).len() == 2 * second.len());
    assert forall|i: int| 0 <= i < first.len() implies first[i] == second[i] by {
        law_hexadecimal(first, i);
        law_hexadecimal(second, i);
        reveal_strlit("0123456789abcdef");
    }
    assert(first =~= second);
}

/// An optional string has a text exactly if it is there.
pub proof fn law_optional_texts(s: String)
    ensures
        optional_text(Some(s)) == Some(s@),
        optional_text(None) is None,
{
}

} // verus!
