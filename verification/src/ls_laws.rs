//! What reading the arguments and the output of `ls` comes to.

use crate::dates::{date_at, is_date, is_decimal, is_month, DateParts};
use crate::ls::{
    any_sets_all, any_sets_recursive, command_args, entry_lines, forwarded, forwarded_flags,
    is_anchored, is_extra, is_slashed, last_number, line_fields, listed_dirs, listed_files,
    ls_options, ls_paths, options_len, output_dirs, output_files, parsed_lines, reduction, sets_all,
    sets_recursive, the_date_is_the_anchor, visible,
};
use crate::number::{decimal, decimal_holds_digits, decimal_holds_no_space};
use crate::text::{appended_lines, first_line, is_white_space, lines, lower, lower_text, words};
use crate::text_laws::{
    bare_text_is_one_word, numbers_are_read_up_to_the_limit, one_carriage_return_is_dropped,
    only_digits_are_numbers, text_without_line_feed_is_one_line, white_space_parts_words,
};
use vstd::prelude::*;

verus! {

/// The number at the end of a row of words is the one that counts, whatever
/// precedes it. Without words there is none.
pub proof fn the_last_number_counts(ws: Seq<Seq<char>>, n: nat)
    requires
        n <= 0xffff_ffff_ffff_ffff,
    ensures
        last_number(ws.push(decimal(n))) == n,
        last_number(ws.push(seq!['+'] + decimal(n))) == n,
        last_number(Seq::empty()) == 0,
{
    numbers_are_read_up_to_the_limit(n, u64::MAX as nat);
}

/// A word at the end that is no number changes nothing.
pub proof fn other_words_do_not_count(ws: Seq<Seq<char>>, w: Seq<char>, i: int)
    requires
        0 <= i < w.len(),
        !(48 <= w[i] as int <= 57),
        i > 0 || w[i] != '+',
    ensures
        last_number(ws.push(w)) == last_number(ws),
{
    only_digits_are_numbers(w, u64::MAX as nat);
    assert(ws.push(w).drop_last() =~= ws);
}

/// Nor does a number that is too large.
pub proof fn too_large_numbers_do_not_count(ws: Seq<Seq<char>>, n: nat)
    requires
        n > 0xffff_ffff_ffff_ffff,
    ensures
        last_number(ws.push(decimal(n))) == last_number(ws),
{
    numbers_are_read_up_to_the_limit(n, u64::MAX as nat);
    assert(ws.push(decimal(n)).drop_last() =~= ws);
}

/// A line whose last word before the date is a number has that size, and the
/// type that its first character gives.
pub proof fn the_size_stands_before_the_date(
    line: Seq<char>,
    front: Seq<char>,
    gap: char,
    n: nat,
    date: Seq<char>,
    name: Seq<char>,
)
    requires
        is_anchored(line, front.push(gap) + decimal(n), date, name),
        is_white_space(gap),
        front.len() > 0,
        !is_white_space(front[0]),
        words(front).len() >= 3,
        n <= 0xffff_ffff_ffff_ffff,
    ensures
        line_fields(line) == Some((front[0], n as u64, name)),
{
    let before = front.push(gap) + decimal(n);
    decimal_holds_digits(n);
    decimal_holds_no_space(n);
    white_space_parts_words(front, gap, decimal(n));
    bare_text_is_one_word(decimal(n));
    assert(words(before) =~= words(front).push(decimal(n)));
    the_last_number_counts(words(front), n);
    the_date_is_the_anchor(line, before, date, name);
    crate::text::lemma_word_len(front);
    assert(words(before)[0][0] == front[0]);
}

/// A line adds the file that it stands for, but for an empty line and one that
/// begins with `total `.
pub proof fn a_line_adds_its_file(rows: Seq<Seq<char>>, line: Seq<char>)
    ensures
        parsed_lines(Seq::empty()).len() == 0,
        line.len() == 0 ==> parsed_lines(rows.push(line)) == parsed_lines(rows),
        "total "@.is_prefix_of(line) ==> parsed_lines(rows.push(line)) == parsed_lines(rows),
        line_fields(line) is None ==> parsed_lines(rows.push(line)) == parsed_lines(rows),
        line.len() > 0 && !"total "@.is_prefix_of(line) && line_fields(line) is Some
            ==> parsed_lines(rows.push(line)) == parsed_lines(rows).push(
            line_fields(line).unwrap(),
        ),
{
    assert(rows.push(line).drop_last() =~= rows);
}

/// Whether a listing that does not show all leaves a file of this name out.
pub open spec fn is_left_out(name: Seq<char>) -> bool {
    name == "node_modules"@ || name == ".git"@ || name == "target"@
}

/// A directory is listed as such, a file or a link as a file, and nothing else is
/// listed. The directory itself and the one above it are never listed, noise only
/// where all is shown.
pub proof fn a_file_is_listed_by_its_type(
    fields: Seq<(char, u64, Seq<char>)>,
    kind: char,
    size: u64,
    name: Seq<char>,
    show_all: bool,
)
    ensures
        listed_dirs(Seq::empty(), show_all).len() == 0,
        listed_files(Seq::empty(), show_all).len() == 0,
        ({
            let all = fields.push((kind, size, name));
            let (dirs, files) = (listed_dirs(fields, show_all), listed_files(fields, show_all));
            let shown = name != "."@ && name != ".."@ && (show_all || !is_left_out(name));
            &&& listed_dirs(all, show_all) == if shown && kind == 'd' {
                dirs.push((name, size))
            } else {
                dirs
            }
            &&& listed_files(all, show_all) == if shown && (kind == '-' || kind == 'l') {
                files.push((name, size))
            } else {
                files
            }
        }),
{
    assert(fields.push((kind, size, name)).drop_last() =~= fields);
}

/// An argument of two or more characters that begins with a dash or a slash is
/// an option, where only options precede it, save `--`. All that follows an
/// argument that is none is a path, as is that argument, save `--`.
pub proof fn the_first_argument_decides(o: Seq<char>, rest: Seq<Seq<char>>)
    ensures
        ls_options(Seq::empty()).len() == 0,
        ls_paths(Seq::empty()).len() == 0,
        ({
            let all = seq![o] + rest;
            if o == "--"@ {
                ls_options(all).len() == 0 && ls_paths(all) == rest
            } else if o.len() >= 2 && (o[0] == '-' || o[0] == '/') {
                ls_options(all) == seq![o] + ls_options(rest) && ls_paths(all) == ls_paths(rest)
            } else {
                ls_options(all).len() == 0 && ls_paths(all) == all
            }
        }),
{
    let all = seq![o] + rest;
    reveal_strlit("--");
    assert(all.drop_first() =~= rest);
    assert(all[0] == o);
    if "--"@.is_prefix_of(o) {
        assert("--"@ =~= o.subrange(0, 2));
        assert(o[0] == "--"@[0]);
    }
    if o == "--"@ {
        assert(all.skip(0) =~= all);
    } else if o.len() >= 2 && (o[0] == '-' || o[0] == '/') {
        let n = options_len(rest) as int;
        lemma_len(rest);
        assert(all.take(n + 1) =~= seq![o] + rest.take(n));
        assert(all.skip(n + 1) =~= rest.skip(n));
    } else {
        assert(all.skip(0) =~= all);
    }
}

proof fn lemma_len(args: Seq<Seq<char>>)
    ensures
        options_len(args) <= args.len(),
    decreases args.len(),
{
    if args.len() > 0 {
        lemma_len(args.drop_first());
    }
}

/// An option adds what it asks for to what those before it ask for.
pub proof fn options_add_up(options: Seq<Seq<char>>, o: Seq<char>)
    ensures
        !any_sets_all(Seq::empty()),
        !any_sets_recursive(Seq::empty()),
        forwarded_flags(Seq::empty()).len() == 0,
        any_sets_all(options.push(o)) == (any_sets_all(options) || sets_all(o)),
        any_sets_recursive(options.push(o)) == (any_sets_recursive(options) || sets_recursive(o)),
        forwarded(o) is None ==> forwarded_flags(options.push(o)) == forwarded_flags(options),
        forwarded(o) matches Some(f) ==> forwarded_flags(options.push(o)) == forwarded_flags(
            options,
        ).push(f),
{
    let all = options.push(o);
    assert(all.drop_last() =~= options);
    assert(all[options.len() as int] == o);
    assert forall|i: int| 0 <= i < options.len() implies #[trigger] all[i] == options[i] by {}
    if any_sets_all(options) {
        let i = choose|i: int| 0 <= i < options.len() && sets_all(#[trigger] options[i]);
        assert(sets_all(all[i]));
    }
    if any_sets_recursive(options) {
        let i = choose|i: int| 0 <= i < options.len() && sets_recursive(#[trigger] options[i]);
        assert(sets_recursive(all[i]));
    }
}

/// Of the options with two dashes two are understood and two do nothing. All
/// others are left to `ls` as they are.
pub proof fn long_options_are_understood_or_left(o: Seq<char>)
    requires
        o.len() >= 2,
        o[0] == '-',
        o[1] == '-',
    ensures
        sets_all(o) <==> o == "--all"@,
        sets_recursive(o) <==> o == "--recursive"@,
        o == "--all"@ || o == "--recursive"@ || o == "--long"@ || o == "--human-readable"@
            ==> forwarded(o) is None,
        o != "--all"@ && o != "--recursive"@ && o != "--long"@ && o != "--human-readable"@
            ==> forwarded(o) == Some(o),
{
    reveal_strlit("--");
    assert("--"@ =~= o.subrange(0, 2));
}

/// Of the options with a slash two are understood, in either case of their
/// letter. All others are left to `ls` as they are.
pub proof fn slashed_options_are_understood_or_left(o: Seq<char>)
    requires
        o.len() >= 2,
        o[0] == '/',
    ensures
        sets_all(o) <==> o == seq!['/', 'a'] || o == seq!['/', 'A'],
        sets_recursive(o) <==> o == seq!['/', 's'] || o == seq!['/', 'S'],
        sets_all(o) || sets_recursive(o) ==> forwarded(o) is None,
        !sets_all(o) && !sets_recursive(o) ==> forwarded(o) == Some(o),
{
    reveal_strlit("--");
    reveal_strlit("a");
    reveal_strlit("s");
    let t = o.drop_first();
    let low = lower_text(t);
    if "--"@.is_prefix_of(o) {
        assert(o[0] == "--"@[0]);
    }
    assert(is_slashed(o));
    assert(low.len() == t.len());
    assert(low[0] == lower(t[0]));
    if low == "a"@ {
        assert(low[0] == 'a');
        assert(t[0] == 'a' || t[0] == 'A');
        assert(o =~= seq!['/', t[0]]);
    }
    if low == "s"@ {
        assert(low[0] == 's');
        assert(t[0] == 's' || t[0] == 'S');
        assert(o =~= seq!['/', t[0]]);
    }
    if o == seq!['/', 'a'] || o == seq!['/', 'A'] {
        assert(low =~= "a"@);
    }
    if o == seq!['/', 's'] || o == seq!['/', 'S'] {
        assert(low =~= "s"@);
    }
    assert("a"@[0] != "s"@[0]);
}

/// Whether `o` is a dash with letters behind it, and none of the two words that
/// PowerShell has.
pub open spec fn is_lettered(o: Seq<char>) -> bool {
    o.len() >= 2 && o[0] == '-' && o[1] != '-' && lower_text(o) != "-force"@ && lower_text(o)
        != "-recurse"@
}

/// The two words of PowerShell are understood in whatever case they are written,
/// and are not left to `ls`.
pub proof fn words_of_powershell_are_understood(o: Seq<char>)
    requires
        o.len() >= 2,
        o[0] == '-',
        o[1] != '-',
    ensures
        lower_text(o) == "-force"@ ==> sets_all(o) && !sets_recursive(o) && forwarded(o) is None,
        lower_text(o) == "-recurse"@ ==> !sets_all(o) && sets_recursive(o) && forwarded(o) is None,
{
    lemma_not_long(o);
    reveal_strlit("-force");
    reveal_strlit("-recurse");
    assert("-force"@.len() != "-recurse"@.len());
}

proof fn lemma_not_long(o: Seq<char>)
    requires
        o.len() >= 2,
        o[0] == '-',
        o[1] != '-',
    ensures
        !"--"@.is_prefix_of(o),
        !is_slashed(o),
{
    reveal_strlit("--");
    if "--"@.is_prefix_of(o) {
        assert(o[1] == "--"@[1]);
    }
}

/// The letters `a` and `R` of an option ask for all files and for
/// subdirectories.
pub proof fn letters_are_understood(o: Seq<char>)
    requires
        is_lettered(o),
    ensures
        sets_all(o) <==> exists|i: int| 1 <= i < o.len() && #[trigger] o[i] == 'a',
        sets_recursive(o) <==> exists|i: int| 1 <= i < o.len() && #[trigger] o[i] == 'R',
{
    lemma_not_long(o);
    let t = o.drop_first();
    assert forall|i: int| 1 <= i < o.len() implies #[trigger] o[i] == t[i - 1] by {}
    if t.contains('a') {
        let k = choose|k: int| 0 <= k < t.len() && t[k] == 'a';
        assert(o[k + 1] == 'a');
    }
    if t.contains('R') {
        let k = choose|k: int| 0 <= k < t.len() && t[k] == 'R';
        assert(o[k + 1] == 'R');
    }
}

/// The letters that an option leaves to `ls`.
pub open spec fn left_letters(o: Seq<char>) -> Seq<char> {
    match forwarded(o) {
        Some(f) => f.drop_first(),
        None => Seq::empty(),
    }
}

/// Each letter of an option but `a`, `R`, `l`, `h` and `1` is left to `ls`, in the
/// order of the letters, behind a dash.
pub proof fn letters_are_left_in_order(o: Seq<char>, c: char)
    requires
        is_lettered(o),
        is_lettered(o.push(c)),
    ensures
        left_letters(o.push(c)) == if c == 'a' || c == 'R' || c == 'l' || c == 'h' || c == '1' {
            left_letters(o)
        } else {
            left_letters(o).push(c)
        },
        forwarded(o) matches Some(f) ==> f.len() >= 2 && f[0] == '-',
{
    let extra = |x: char| is_extra(x);
    let t = o.drop_first();
    reveal_strlit("-");
    lemma_not_long(o);
    lemma_not_long(o.push(c));
    assert(o.push(c).drop_first() =~= t.push(c));
    t.lemma_filter_push(c, extra);
    assert(("-"@ + t.filter(extra)).drop_first() =~= t.filter(extra));
    assert(("-"@ + t.push(c).filter(extra)).drop_first() =~= t.push(c).filter(extra));
    if t.filter(extra).len() == 0 {
        assert(t.filter(extra) =~= Seq::empty());
    }
    if t.push(c).filter(extra).len() == 0 {
        assert(t.push(c).filter(extra) =~= Seq::empty());
    }
}

/// An option of one letter leaves that letter to `ls`, or nothing.
pub proof fn one_letter_is_left_or_understood(c: char)
    requires
        c != '-',
    ensures
        c == 'a' || c == 'R' || c == 'l' || c == 'h' || c == '1' ==> forwarded(seq!['-', c]) is None,
        c != 'a' && c != 'R' && c != 'l' && c != 'h' && c != '1' ==> forwarded(seq!['-', c]) == Some(
            seq!['-', c],
        ),
{
    let o = seq!['-', c];
    let extra = |x: char| is_extra(x);
    lemma_not_long(o);
    reveal_strlit("-");
    reveal_strlit("-force");
    reveal_strlit("-recurse");
    assert(lower_text(o).len() == 2);
    assert(o.drop_first() =~= Seq::<char>::empty().push(c));
    Seq::<char>::empty().lemma_filter_push(c, extra);
    assert(Seq::<char>::empty().filter(extra) =~= Seq::empty()) by {
        reveal(Seq::filter);
    }
    if is_extra(c) {
        assert(o.drop_first().filter(extra) =~= seq![c]);
        assert("-"@ + seq![c] =~= o);
    }
}

/// Each letter that is left to `ls` stands in the option, and each of the option
/// is left or understood.
pub proof fn no_letter_is_lost(o: Seq<char>, i: int)
    requires
        is_lettered(o),
        1 <= i < o.len(),
    ensures
        o[i] == 'a' || o[i] == 'R' || o[i] == 'l' || o[i] == 'h' || o[i] == '1'
            || left_letters(o).contains(o[i]),
        forall|k: int|
            0 <= k < left_letters(o).len() ==> o.contains(#[trigger] left_letters(o)[k])
                && left_letters(o)[k] != 'a' && left_letters(o)[k] != 'R' && left_letters(o)[k] != 'l'
                && left_letters(o)[k] != 'h' && left_letters(o)[k] != '1',
{
    broadcast use vstd::seq_lib::group_filter_ensures;

    let extra = |x: char| is_extra(x);
    let t = o.drop_first();
    lemma_not_long(o);
    reveal_strlit("-");
    assert(("-"@ + t.filter(extra)).drop_first() =~= t.filter(extra));
    assert(t[i - 1] == o[i]);
    let left = t.filter(extra);
    assert(left_letters(o) =~= left);
    assert forall|k: int| 0 <= k < left.len() implies o.contains(#[trigger] left[k]) && is_extra(
        left[k],
    ) by {
        assert(left.contains(left[k]));
        t.lemma_filter_contains_rev(extra, left[k]);
        t.lemma_filter_pred(extra, k);
        let j = choose|j: int| 0 <= j < t.len() && t[j] == left[k];
        assert(o[j + 1] == left[k]);
    }
}

/// `ls` always gets `-la`, and `-R` where subdirectories are asked for. What is
/// left to it follows, and the paths come last, or the directory at hand.
pub proof fn what_ls_gets(flags: Seq<Seq<char>>, path: Seq<char>, paths: Seq<Seq<char>>)
    ensures
        command_args(false, flags, Seq::empty()) == seq!["-la"@] + flags + seq!["."@],
        command_args(false, flags, seq![path] + paths) == seq!["-la"@] + flags + (seq![path]
            + paths),
        command_args(true, flags, Seq::empty()) == seq!["-la"@, "-R"@] + flags + seq!["."@],
        command_args(true, flags, seq![path] + paths) == seq!["-la"@, "-R"@] + flags + (seq![path]
            + paths),
{
}

/// On a terminal the summary follows the entries. Elsewhere there are the entries
/// alone.
pub proof fn the_summary_is_for_terminals(entries: Seq<char>, summary: Seq<char>)
    ensures
        visible(entries, summary, true) == entries + summary,
        visible(entries, summary, false) == entries,
{
}

/// The reduction is what is missing to a hundred percent, of which a part is
/// rounded up.
pub proof fn the_reduction_is_a_percentage(raw: nat, filtered: nat)
    ensures
        reduction(0, filtered) == 0,
        raw > 0 ==> (100 - reduction(raw, filtered)) * raw <= 100 * filtered < (101 - reduction(
            raw,
            filtered,
        )) * raw,
        raw > 0 ==> reduction(raw, raw) == 0,
        raw > 0 ==> reduction(raw, 0) == 100,
{
    if raw > 0 {
        let q = (filtered * 100) / raw;
        assert(q * raw <= filtered * 100 < (q + 1) * raw) by (nonlinear_arith)
            requires
                raw > 0,
                q == (filtered * 100) / raw,
        ;
        assert((raw * 100) / raw == 100) by (nonlinear_arith)
            requires
                raw > 0,
        ;
        assert(0nat / raw == 0) by (nonlinear_arith)
            requires
                raw > 0,
        ;
    }
}

/// The short names of the months.
pub open spec fn months() -> Seq<Seq<char>> {
    seq![
        "Jan"@,
        "Feb"@,
        "Mar"@,
        "Apr"@,
        "May"@,
        "Jun"@,
        "Jul"@,
        "Aug"@,
        "Sep"@,
        "Oct"@,
        "Nov"@,
        "Dec"@,
    ]
}

/// Whether ASCII digits stand at the characters `from..to`.
pub open spec fn plain_digits(s: Seq<char>, from: int, to: int) -> bool {
    forall|i: int| from <= i < to ==> 48 <= (#[trigger] s[i]) as int <= 57
}

/// Each month makes a date, with a day of one or two digits and a year or a time,
/// and white space around each of them.
pub proof fn every_month_makes_a_date(
    text: Seq<char>,
    k: int,
    start: int,
    month: int,
    day: int,
    day_end: int,
    clock: int,
    clock_end: int,
    end: int,
)
    requires
        0 <= k < 12,
        0 <= start < month,
        month + 3 < day < day_end <= day + 2,
        day_end < clock < clock_end < end <= text.len(),
        text.subrange(month, month + 3) == months()[k],
        forall|i: int|
            start <= i < month || month + 3 <= i < day || day_end <= i < clock || clock_end <= i
                < end ==> is_white_space(#[trigger] text[i]),
        plain_digits(text, day, day_end),
        ({
            ||| clock_end == clock + 4 && plain_digits(text, clock, clock_end)
            ||| clock_end == clock + 5 && plain_digits(text, clock, clock + 2) && text[clock + 2]
                == ':' && plain_digits(text, clock + 3, clock_end)
        }),
    ensures
        date_at(text, start, end),
{
    assert(is_month(months()[k])) by {
        assert(k == 0 || k == 1 || k == 2 || k == 3 || k == 4 || k == 5 || k == 6 || k == 7 || k == 8
            || k == 9 || k == 10 || k == 11);
    }
    let p = DateParts { month, day, day_end, clock, clock_end };
    assert(is_date(text, start, p, end));
}

/// No text is a date in which no month stands, of which the day does not follow
/// the month, or which does not begin and end with white space.
pub proof fn a_date_holds_a_month(text: Seq<char>, start: int, end: int)
    requires
        date_at(text, start, end),
    ensures
        0 <= start < end <= text.len(),
        is_white_space(text[start]),
        is_white_space(text[end - 1]),
        end - start >= 3 + 1 + 4 + 4,
        exists|m: int|
            start < m && m + 3 < end && months().contains(#[trigger] text.subrange(m, m + 3)),
{
    let p = choose|p: DateParts| #[trigger] is_date(text, start, p, end);
    let m = text.subrange(p.month, p.month + 3);
    lemma_months(m);
    assert(months().contains(m));
}

proof fn lemma_months(m: Seq<char>)
    requires
        is_month(m),
    ensures
        months().contains(m),
{
    let v = months();
    assert(v[0] == "Jan"@ && v[1] == "Feb"@ && v[2] == "Mar"@ && v[3] == "Apr"@);
    assert(v[4] == "May"@ && v[5] == "Jun"@ && v[6] == "Jul"@ && v[7] == "Aug"@);
    assert(v[8] == "Sep"@ && v[9] == "Oct"@ && v[10] == "Nov"@ && v[11] == "Dec"@);
}

/// Each line of the output lists its file behind those of the lines before it,
/// whether or not a line feed ends it.
pub proof fn output_is_listed_line_by_line(raw: Seq<char>, line: Seq<char>, show_all: bool)
    requires
        raw.len() == 0 || raw.last() == '\n',
        line.len() > 0,
        forall|i: int| 0 <= i < line.len() ==> #[trigger] line[i] != '\n',
        line.last() != '\r',
    ensures
        output_dirs(Seq::empty(), show_all).len() == 0,
        output_files(Seq::empty(), show_all).len() == 0,
        output_dirs(raw + (line + "\n"@), show_all) == output_dirs(raw + line, show_all),
        output_files(raw + (line + "\n"@), show_all) == output_files(raw + line, show_all),
        ({
            let (dirs, files) = (output_dirs(raw, show_all), output_files(raw, show_all));
            let (more_dirs, more_files) = (
                output_dirs(raw + line, show_all),
                output_files(raw + line, show_all),
            );
            match line_fields(line) {
                Some((kind, size, name)) if !"total "@.is_prefix_of(line) => {
                    let shown = name != "."@ && name != ".."@ && (show_all || !is_left_out(name));
                    &&& more_dirs == if shown && kind == 'd' {
                        dirs.push((name, size))
                    } else {
                        dirs
                    }
                    &&& more_files == if shown && (kind == '-' || kind == 'l') {
                        files.push((name, size))
                    } else {
                        files
                    }
                },
                _ => more_dirs == dirs && more_files == files,
            }
        }),
{
    let rows = lines(raw);
    assert(!line.contains('\n'));
    text_without_line_feed_is_one_line(line);
    appended_lines(raw, line);
    assert(rows + seq![line] =~= rows.push(line));
    appended_lines(raw, line + "\n"@);
    first_line(line, Seq::empty());
    assert(line + "\n"@ + Seq::<char>::empty() =~= line + "\n"@);
    one_carriage_return_is_dropped(line);
    assert(lines(Seq::empty()) =~= Seq::empty());
    assert(seq![line] + lines(Seq::empty()) =~= seq![line]);
    a_line_adds_its_file(rows, line);
    match line_fields(line) {
        Some((kind, size, name)) => {
            a_file_is_listed_by_its_type(parsed_lines(rows), kind, size, name, show_all);
        },
        None => {},
    }
}

/// A listing has a line for each directory and each file, or one line where it
/// has neither.
pub proof fn each_entry_has_a_line(
    dirs: Seq<(Seq<char>, u64)>,
    files: Seq<(Seq<char>, u64)>,
    row: (Seq<char>, u64),
)
    ensures
        entry_lines(Seq::empty(), Seq::empty()) == 1,
        entry_lines(seq![row], Seq::empty()) == 1,
        entry_lines(Seq::empty(), seq![row]) == 1,
        dirs.len() + files.len() > 0 ==> entry_lines(dirs.push(row), files) == entry_lines(
            dirs,
            files,
        ) + 1,
        dirs.len() + files.len() > 0 ==> entry_lines(dirs, files.push(row)) == entry_lines(
            dirs,
            files,
        ) + 1,
{
}

/// In a date white space stands before the month, behind the year or the time,
/// and between its parts. The day has one digit or two, a year has four, and a
/// time has two on each side of its colon.
pub proof fn the_parts_of_a_date_are_parted(
    text: Seq<char>,
    start: int,
    p: DateParts,
    end: int,
    k: int,
)
    requires
        is_date(text, start, p, end),
        start <= k < end,
    ensures
        start < p.month && p.month + 3 < p.day < p.day_end < p.clock < p.clock_end < end,
        p.day_end - p.day == 1 || p.day_end - p.day == 2,
        p.clock_end - p.clock == 4 || p.clock_end - p.clock == 5,
        k < p.month || p.month + 3 <= k < p.day || p.day_end <= k < p.clock || p.clock_end <= k
            ==> is_white_space(text[k]),
        p.day <= k < p.day_end ==> is_decimal(text[k]),
        p.clock <= k < p.clock_end && !(p.clock_end - p.clock == 5 && k == p.clock + 2)
            ==> is_decimal(text[k]),
        p.clock_end - p.clock == 5 ==> text[p.clock + 2] == ':',
{
}

/// Of the characters of ASCII the ten digits are decimal, and no others.
pub proof fn ten_digits_of_ascii_are_decimal(c: char)
    requires
        (c as int) < 128,
    ensures
        is_decimal(c) <==> 48 <= (c as int) <= 57,
{
}

} // verus!
