//! What words, lines and the other parts of a text are, said without the way in
//! which they are found.

use crate::number::{
    decimal, decimal_holds_digits, digit_value, digits_value, is_digit, parse_unsigned,
    without_plus,
};
use crate::sort::text_le;
use crate::text::{
    at_most, is_white_space, join, last_index, lemma_last_index, lemma_line_len, lemma_word_len,
    line_feeds, lines, lower, lower_text, replace_char, trim, trim_end, trim_start, without_cr,
    word_len, words,
};
use vstd::prelude::*;

verus! {

/// The words of a text that white space parts are those of its two parts.
pub proof fn white_space_parts_words(a: Seq<char>, c: char, b: Seq<char>)
    requires
        is_white_space(c),
    ensures
        words(a.push(c) + b) == words(a) + words(b),
    decreases a.len(),
{
    let s = a.push(c) + b;
    if a.len() == 0 {
        assert(s[0] == c);
        assert(s.drop_first() =~= b);
        assert(words(a) + words(b) =~= words(b));
    } else if is_white_space(a[0]) {
        assert(s[0] == a[0]);
        assert(s.drop_first() =~= a.drop_first().push(c) + b);
        white_space_parts_words(a.drop_first(), c, b);
    } else {
        let n = word_len(a) as int;
        lemma_word_len(a);
        lemma_word_len(s);
        assert(s[0] == a[0]);
        assert(word_len(s) == n) by {
            if word_len(s) < n {
                assert(s[word_len(s) as int] == a[word_len(s) as int]);
            }
            if word_len(s) > n {
                assert(s[n] == a.push(c)[n]);
            }
        }
        assert(s.take(n) =~= a.take(n));
        assert(s.skip(n) =~= a.skip(n).push(c) + b);
        white_space_parts_words(a.skip(n), c, b);
        assert(seq![a.take(n)] + (words(a.skip(n)) + words(b)) =~= (seq![a.take(n)] + words(
            a.skip(n),
        )) + words(b));
    }
}

/// A text that holds no white space is one word, if it is not empty.
pub proof fn bare_text_is_one_word(w: Seq<char>)
    requires
        forall|i: int| 0 <= i < w.len() ==> !is_white_space(#[trigger] w[i]),
    ensures
        words(w) == if w.len() == 0 {
            Seq::<Seq<char>>::empty()
        } else {
            seq![w]
        },
{
    if w.len() > 0 {
        lemma_word_len(w);
        assert(word_len(w) == w.len());
        assert(w.take(w.len() as int) =~= w);
        assert(words(w.skip(w.len() as int)) =~= Seq::empty());
        assert(words(w) =~= seq![w]);
    } else {
        assert(words(w) =~= Seq::empty());
    }
}

/// A text that holds no line feed is one line, if it is not empty.
pub proof fn text_without_line_feed_is_one_line(s: Seq<char>)
    requires
        forall|i: int| 0 <= i < s.len() ==> #[trigger] s[i] != '\n',
    ensures
        lines(s) == if s.len() == 0 {
            Seq::<Seq<char>>::empty()
        } else {
            seq![s]
        },
{
    lemma_line_len(s);
    if s.len() == 0 {
        assert(lines(s) =~= Seq::empty());
    }
}

/// One carriage return at the end of a line is dropped, and nothing else.
pub proof fn one_carriage_return_is_dropped(s: Seq<char>)
    ensures
        without_cr(s.push('\r')) == s,
        s.len() == 0 || s.last() != '\r' ==> without_cr(s) == s,
{
    assert(s.push('\r').drop_last() =~= s);
}

/// Trimming takes the white space away from both ends, and nothing else.
pub proof fn trimming_keeps_the_core(before: Seq<char>, core: Seq<char>, after: Seq<char>)
    requires
        forall|i: int| 0 <= i < before.len() ==> is_white_space(#[trigger] before[i]),
        forall|i: int| 0 <= i < after.len() ==> is_white_space(#[trigger] after[i]),
        core.len() > 0 ==> !is_white_space(core[0]) && !is_white_space(core.last()),
    ensures
        trim(before + core + after) == core,
    decreases before.len(), after.len(),
{
    let s = before + core + after;
    if before.len() > 0 {
        let rest = before.drop_first();
        assert forall|i: int| 0 <= i < rest.len() implies is_white_space(#[trigger] rest[i]) by {
            assert(rest[i] == before[i + 1]);
        }
        assert(s[0] == before[0]);
        assert(s.drop_first() =~= rest + core + after);
        trimming_keeps_the_core(rest, core, after);
    } else if core.len() == 0 {
        assert(s =~= after);
        lemma_blank(after);
    } else {
        assert(s =~= core + after);
        assert(s[0] == core[0]);
        assert(trim_start(s) == s);
        lemma_trim_end(core, after);
    }
}

proof fn lemma_blank(s: Seq<char>)
    requires
        forall|i: int| 0 <= i < s.len() ==> is_white_space(#[trigger] s[i]),
    ensures
        trim_start(s) =~= Seq::empty(),
        trim(s) =~= Seq::empty(),
    decreases s.len(),
{
    if s.len() > 0 {
        let rest = s.drop_first();
        assert forall|i: int| 0 <= i < rest.len() implies is_white_space(#[trigger] rest[i]) by {
            assert(rest[i] == s[i + 1]);
        }
        lemma_blank(rest);
    }
}

proof fn lemma_trim_end(core: Seq<char>, after: Seq<char>)
    requires
        forall|i: int| 0 <= i < after.len() ==> is_white_space(#[trigger] after[i]),
        core.len() > 0,
        !is_white_space(core.last()),
    ensures
        trim_end(core + after) == core,
    decreases after.len(),
{
    let s = core + after;
    if after.len() > 0 {
        let rest = after.drop_last();
        assert forall|i: int| 0 <= i < rest.len() implies is_white_space(#[trigger] rest[i]) by {
            assert(rest[i] == after[i]);
        }
        assert(s.last() == after[after.len() - 1]);
        assert(s.drop_last() =~= core + rest);
        lemma_trim_end(core, rest);
    } else {
        assert(s =~= core);
    }
}

/// Joining puts the separator before each text but the first.
pub proof fn joining_adds_a_separator(parts: Seq<Seq<char>>, x: Seq<char>, sep: Seq<char>)
    ensures
        join(Seq::empty(), sep) == Seq::<char>::empty(),
        join(parts.push(x), sep) == if parts.len() == 0 {
            x
        } else {
            join(parts, sep) + sep + x
        },
    decreases parts.len(),
{
    let all = parts.push(x);
    if parts.len() > 0 {
        assert(all.drop_first() =~= parts.drop_first().push(x));
        joining_adds_a_separator(parts.drop_first(), x, sep);
        if parts.len() == 1 {
            assert(parts.drop_first().len() == 0);
            assert(join(all, sep) =~= parts[0] + sep + x);
        } else {
            let rest = join(parts.drop_first(), sep);
            assert(parts[0] + (sep + (rest + sep + x)) =~= parts[0] + (sep + rest) + sep + x);
        }
    }
}

/// Replacing changes each of the characters in question, and no other.
pub proof fn replacing_is_pointwise(s: Seq<char>, a: char, b: char, i: int)
    requires
        0 <= i < s.len(),
    ensures
        replace_char(s, a, b).len() == s.len(),
        s[i] == a ==> replace_char(s, a, b)[i] == b,
        s[i] != a ==> replace_char(s, a, b)[i] == s[i],
{
}

/// Behind the last index of a character it does not stand again.
pub proof fn last_index_is_last(before: Seq<char>, c: char, after: Seq<char>)
    requires
        !after.contains(c),
    ensures
        last_index(before.push(c) + after, c) == Some(before.len() as int),
        last_index(after, c) is None,
{
    let s = before.push(c) + after;
    lemma_last_index(s, c);
    lemma_last_index(after, c);
    assert(s[before.len() as int] == c);
    match last_index(s, c) {
        Some(i) => {
            if i > before.len() {
                assert(after[i - before.len() - 1] == s[i]);
            }
        },
        None => {},
    }
    match last_index(after, c) {
        Some(i) => {
            assert(after[i] == c);
        },
        None => {},
    }
}

/// A capital letter of ASCII becomes the small one, which is 32 places behind
/// it. No other character changes.
pub proof fn capitals_become_small(s: Seq<char>, i: int)
    requires
        0 <= i < s.len(),
    ensures
        lower_text(s).len() == s.len(),
        lower_text(s)[i] == lower(s[i]),
        65 <= s[i] as int <= 90 ==> lower(s[i]) as int == s[i] as int + 32,
        s[i] as int <= 64 || s[i] as int >= 91 ==> lower(s[i]) == s[i],
{
}

/// Line feeds are counted one by one.
pub proof fn line_feeds_are_counted(s: Seq<char>)
    ensures
        line_feeds(s) == s.filter(|c: char| c as int == 10).len(),
    decreases s.len(),
{
    let feed = |c: char| c as int == 10;
    if s.len() == 0 {
        reveal(Seq::filter);
    } else {
        line_feeds_are_counted(s.drop_last());
        s.drop_last().lemma_filter_push(s.last(), feed);
        assert(s.drop_last().push(s.last()) =~= s);
    }
}

/// No more is kept than is asked for, and of what there is, the front.
pub proof fn the_front_is_kept<A>(s: Seq<A>, n: nat)
    ensures
        at_most(s, n).len() == vstd::math::min(s.len() as int, n as int),
        at_most(s, n).is_prefix_of(s),
{
    assert(at_most(s, n) =~= s.subrange(0, at_most(s, n).len() as int));
}

/// Of two texts with a common start, the next characters decide the order. A
/// text comes before what it is continued to.
pub proof fn first_difference_decides(
    start: Seq<char>,
    a: char,
    x: Seq<char>,
    b: char,
    y: Seq<char>,
)
    requires
        (a as int) < (b as int),
    ensures
        text_le(start.push(a) + x, start.push(b) + y),
        !text_le(start.push(b) + y, start.push(a) + x),
        text_le(start, start + x),
        x.len() > 0 ==> !text_le(start + x, start),
    decreases start.len(),
{
    let (s, t) = (start.push(a) + x, start.push(b) + y);
    if start.len() > 0 {
        let rest = start.drop_first();
        assert(s.drop_first() =~= rest.push(a) + x);
        assert(t.drop_first() =~= rest.push(b) + y);
        assert((start + x).drop_first() =~= rest + x);
        first_difference_decides(rest, a, x, b, y);
    }
}

/// The digits of ASCII have the values zero to nine, in their order, and each
/// further digit makes ten of one.
pub proof fn digits_have_their_values(s: Seq<char>, c: char)
    ensures
        is_digit(c) <==> 48 <= c as int <= 57,
        is_digit(c) ==> digit_value(c) == c as int - 48,
        digits_value(Seq::empty()) == 0,
        is_digit(c) ==> digits_value(s.push(c)) == 10 * digits_value(s) + (c as int - 48),
{
    assert(s.push(c).drop_last() =~= s);
}

/// A number above zero is written without a leading zero.
pub proof fn no_number_leads_with_zero(n: nat)
    ensures
        n > 0 ==> decimal(n)[0] as int != 48,
        n < 10 ==> decimal(n).len() == 1,
        n >= 10 ==> decimal(n).len() == decimal(n / 10).len() + 1,
    decreases n,
{
    decimal_holds_digits(n);
    if n >= 10 {
        no_number_leads_with_zero(n / 10);
        decimal_holds_digits(n / 10);
    }
}

/// A number is read with or without a plus sign, where it is not too large, and
/// else not at all.
pub proof fn numbers_are_read_up_to_the_limit(n: nat, max: nat)
    ensures
        n <= max ==> parse_unsigned(decimal(n), max) == Some(n) && parse_unsigned(
            seq!['+'] + decimal(n),
            max,
        ) == Some(n),
        n > max ==> parse_unsigned(decimal(n), max) is None && parse_unsigned(
            seq!['+'] + decimal(n),
            max,
        ) is None,
{
    decimal_holds_digits(n);
    let d = decimal(n);
    assert(is_digit(d[0]));
    assert((seq!['+'] + d).drop_first() =~= d);
    assert(without_plus(seq!['+'] + d) == d);
}

/// A zero before a number changes nothing.
pub proof fn leading_zeros_do_not_count(s: Seq<char>, max: nat)
    requires
        s.len() > 0,
        forall|i: int| 0 <= i < s.len() ==> is_digit(#[trigger] s[i]),
    ensures
        parse_unsigned(seq!['0'] + s, max) == parse_unsigned(s, max),
{
    let z = seq!['0'] + s;
    lemma_zero_value(s);
    assert(is_digit(s[0]));
    assert forall|i: int| 0 <= i < z.len() implies is_digit(#[trigger] z[i]) by {
        if i > 0 {
            assert(z[i] == s[i - 1]);
        }
    }
}

proof fn lemma_zero_value(s: Seq<char>)
    ensures
        digits_value(seq!['0'] + s) == digits_value(s),
    decreases s.len(),
{
    let z = seq!['0'] + s;
    if s.len() == 0 {
        assert(z.drop_last() =~= Seq::empty());
        assert(digits_value(Seq::empty()) == 0);
    } else {
        assert(z.drop_last() =~= seq!['0'] + s.drop_last());
        lemma_zero_value(s.drop_last());
    }
}

/// A text is no number where it is empty, or where anything but a digit stands
/// in it, save a plus sign at its start. All others are numbers, if the limit
/// admits them.
pub proof fn only_digits_are_numbers(s: Seq<char>, max: nat)
    ensures
        s.len() == 0 ==> parse_unsigned(s, max) is None,
        s == seq!['+'] ==> parse_unsigned(s, max) is None,
        (exists|i: int| 0 <= i < s.len() && !(48 <= (#[trigger] s[i]) as int <= 57) && (i > 0 || s[i]
            != '+')) ==> parse_unsigned(s, max) is None,
        (s.len() > 0 && forall|i: int| 0 <= i < s.len() ==> 48 <= (#[trigger] s[i]) as int <= 57)
            ==> (parse_unsigned(s, max) is Some <==> digits_value(s) <= max),
{
    let d = without_plus(s);
    if exists|i: int| 0 <= i < s.len() && !(48 <= (#[trigger] s[i]) as int <= 57) && (i > 0 || s[i]
        != '+') {
        let i = choose|i: int|
            0 <= i < s.len() && !(48 <= (#[trigger] s[i]) as int <= 57) && (i > 0 || s[i] != '+');
        if s[0] == '+' {
            assert(d[i - 1] == s[i]);
        } else {
            assert(d[i] == s[i]);
        }
    }
    if s.len() > 0 && forall|i: int| 0 <= i < s.len() ==> 48 <= (#[trigger] s[i]) as int <= 57 {
        assert(48 <= s[0] as int <= 57);
        assert(d == s);
    }
}

/// These characters are white space, and no others.
pub proof fn white_space_is_known(c: char)
    ensures
        is_white_space(c) <==> {
            let n = c as int;
            ||| 0x9 <= n < 0xe
            ||| n == 0x20
            ||| n == 0x85
            ||| n == 0xa0
            ||| n == 0x1680
            ||| 0x2000 <= n < 0x200b
            ||| n == 0x2028
            ||| n == 0x2029
            ||| n == 0x202f
            ||| n == 0x205f
            ||| n == 0x3000
        },
{
}

} // verus!
