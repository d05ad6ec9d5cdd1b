//! What compacting the output of `wc`, and counting in its place, comes to.

use crate::number::{decimal, parse_unsigned};
use crate::std_text::{newlines, utf8_lossy};
use crate::text::{join, lines, trim, words};
use crate::wc_cmd::{
    all_stats, bytes_of, chars_in, columns_of, common_prefix, common_prefix_is_longest, compact_wc,
    decoded_stats, file_bytes, is_column, is_count, is_shared_dir, lines_of, mode_of, named_paths,
    read_len, requested, single_line, stats_of, stats_text, sum, table, table_row, table_rows,
    totals, wc_paths, wc_report, wc_result, without_prefix, words_of, WcMode, WcStats,
};
use vstd::prelude::*;
use vstd::utf8::decode_utf8;

verus! {

/// Two or more column letters make the mixed mode, none makes the full one. Each
/// mode of one column comes from its one letter alone.
pub proof fn one_letter_makes_its_mode(args: Seq<Seq<char>>)
    ensures
        mode_of(requested(args)) == WcMode::Full <==> requested(args).len() == 0,
        mode_of(requested(args)) == WcMode::Mixed <==> requested(args).len() >= 2,
        mode_of(requested(args)) == WcMode::Lines <==> requested(args) == seq!['l'],
        mode_of(requested(args)) == WcMode::Words <==> requested(args) == seq!['w'],
        mode_of(requested(args)) == WcMode::Bytes <==> requested(args) == seq!['c'],
        mode_of(requested(args)) == WcMode::Chars <==> requested(args) == seq!['m'],
{
    let letters = requested(args);
    lemma_requested_letters(args);
    if letters.len() == 1 {
        assert(letters =~= seq![letters[0]]);
        assert(letters.contains(letters[0]));
        assert(seq!['l'][0] == 'l' && seq!['w'][0] == 'w' && seq!['c'][0] == 'c' && seq!['m'][0]
            == 'm');
    }
    assert(seq!['l'].len() == 1 && seq!['w'].len() == 1 && seq!['c'].len() == 1 && seq!['m'].len()
        == 1);
}

proof fn lemma_requested_letters(args: Seq<Seq<char>>)
    ensures
        forall|i: int|
            0 <= i < requested(args).len() ==> is_column(#[trigger] requested(args)[i]),
    decreases args.len(),
{
    if args.len() > 0 {
        let front = requested(args.drop_last());
        let last = args.last();
        let column = |c: char| is_column(c);
        lemma_requested_letters(args.drop_last());
        assert forall|i: int| 0 <= i < requested(args).len() implies is_column(
            #[trigger] requested(args)[i],
        ) by {
            if i < front.len() {
                assert(requested(args)[i] == front[i]);
            } else {
                last.drop_first().lemma_filter_pred(column, i - front.len());
                assert(requested(args)[i] == columns_of(last)[i - front.len()]);
            }
        }
    }
}

/// Each of the letters `l`, `w`, `c` and `m` behind the dash of an argument counts
/// once for each time that it stands there, and no other character does.
pub proof fn each_column_letter_counts(args: Seq<Seq<char>>, x: Seq<char>, c: char)
    ensures
        requested(Seq::empty()).len() == 0,
        requested(args.push(seq!['-'])) == requested(args),
        requested(args.push((seq!['-'] + x).push(c))) == if c == 'l' || c == 'w' || c == 'c' || c
            == 'm' {
            requested(args.push(seq!['-'] + x)).push(c)
        } else {
            requested(args.push(seq!['-'] + x))
        },
{
    let column = |d: char| is_column(d);
    let (o, p) = (seq!['-'] + x, (seq!['-'] + x).push(c));
    assert(args.push(o).drop_last() =~= args);
    assert(args.push(p).drop_last() =~= args);
    assert(args.push(seq!['-']).drop_last() =~= args);
    assert(o.drop_first() =~= x);
    assert(p.drop_first() =~= x.push(c));
    x.lemma_filter_push(c, column);
    assert(requested(args) + x.filter(column).push(c) =~= (requested(args) + x.filter(
        column,
    )).push(c));
    assert(seq!['-'].drop_first() =~= Seq::empty());
    assert(Seq::<char>::empty().filter(column) =~= Seq::empty()) by {
        reveal(Seq::filter);
    }
    assert(requested(args) + Seq::<char>::empty() =~= requested(args));
}

/// An argument that does not begin with a dash asks for no column.
pub proof fn other_arguments_ask_for_nothing(args: Seq<Seq<char>>, arg: Seq<char>)
    requires
        arg.len() == 0 || arg[0] != '-',
    ensures
        requested(args.push(arg)) == requested(args),
{
    assert(args.push(arg).drop_last() =~= args);
    assert(requested(args) + Seq::<char>::empty() =~= requested(args));
}

/// Flags at the start are no paths. From the first other argument on all are
/// paths, but for a `--` in its place.
pub proof fn the_first_argument_decides_on_paths(o: Seq<char>, rest: Seq<Seq<char>>)
    ensures
        wc_paths(Seq::empty()).len() == 0,
        o == "--"@ ==> wc_paths(seq![o] + rest) == rest,
        o != "--"@ && o.len() > 0 && o[0] == '-' ==> wc_paths(seq![o] + rest) == wc_paths(rest),
        o.len() == 0 || o[0] != '-' ==> wc_paths(seq![o] + rest) == seq![o] + rest,
{
    let all = seq![o] + rest;
    reveal_strlit("--");
    assert(all.drop_first() =~= rest);
    assert(all[0] == o);
    if o == "--"@ {
        assert(o[0] == '-');
    }
}

/// Each mode shows its own counts.
pub proof fn each_mode_shows_its_counts(s: WcStats)
    ensures
        stats_text(s, WcMode::Lines) == decimal(s.lines as nat),
        stats_text(s, WcMode::Words) == decimal(s.words as nat),
        stats_text(s, WcMode::Bytes) == decimal(s.bytes as nat),
        stats_text(s, WcMode::Chars) == decimal(s.chars as nat),
        stats_text(s, WcMode::Full) == decimal(s.lines as nat) + "L "@ + decimal(s.words as nat)
            + "W "@ + decimal(s.bytes as nat) + "B"@,
        stats_text(s, WcMode::Mixed) == decimal(s.lines as nat) + " "@ + decimal(s.words as nat)
            + " "@ + decimal(s.bytes as nat) + " "@ + decimal(s.chars as nat),
{
}

/// A prefix is stripped where it is one, and else nothing is.
pub proof fn a_prefix_is_stripped(prefix: Seq<char>, rest: Seq<char>, other: Seq<char>)
    requires
        !prefix.is_prefix_of(other),
    ensures
        without_prefix(prefix + rest, prefix) == rest,
        without_prefix(other, prefix) == other,
        without_prefix(other, Seq::empty()) == other,
{
    assert(prefix =~= (prefix + rest).subrange(0, prefix.len() as int));
    assert((prefix + rest).skip(prefix.len() as int) =~= rest);
    assert(other.skip(0) =~= other);
}

/// One path alone has no common prefix.
pub proof fn one_path_keeps_its_directory(path: Seq<char>)
    ensures
        common_prefix(seq![path]).len() == 0,
        common_prefix(Seq::empty()).len() == 0,
{
}

/// A directory that all of two or more paths share is found: the common prefix is
/// at least as long, and what follows it differs in its first part.
pub proof fn a_shared_directory_is_found(paths: Seq<Seq<char>>, dir: Seq<char>)
    requires
        paths.len() >= 2,
        dir.len() > 0,
        dir.last() == '/',
        forall|i: int| 0 <= i < paths.len() ==> dir.is_prefix_of(#[trigger] paths[i]),
    ensures
        dir.is_prefix_of(common_prefix(paths)),
        common_prefix(paths).len() >= dir.len(),
        common_prefix(paths).last() == '/',
        forall|i: int| 0 <= i < paths.len() ==> common_prefix(paths).is_prefix_of(#[trigger] paths[i]),
{
    common_prefix_is_longest(paths, dir);
    assert(is_shared_dir(dir, paths));
    assert(common_prefix(paths).len() >= dir.len());
}

/// A common prefix is a directory, its slash included, in which all paths lie.
pub proof fn a_common_prefix_is_a_directory(paths: Seq<Seq<char>>, i: int)
    requires
        0 <= i < paths.len(),
        common_prefix(paths).len() > 0,
    ensures
        paths.len() >= 2,
        common_prefix(paths).last() == '/',
        common_prefix(paths).is_prefix_of(paths[i]),
{
    if paths.len() >= 2 {
        common_prefix_is_longest(paths, Seq::empty());
    }
}

/// A line of one input shows its first word in a mode of one column, and its
/// first three words as lines, words and bytes in the full mode.
pub proof fn a_single_line_shows_its_columns(line: Seq<char>)
    ensures
        forall|mode: WcMode|
            mode != WcMode::Full && mode != WcMode::Mixed ==> #[trigger] single_line(line, mode) == (
            if words(line).len() == 0 {
                Seq::empty()
            } else {
                words(line)[0]
            }),
        words(line).len() >= 3 ==> single_line(line, WcMode::Full) == words(line)[0] + "L "@
            + words(line)[1] + "W "@ + words(line)[2] + "B"@,
        words(line).len() <= 2 ==> single_line(line, WcMode::Full) == trim(line),
{
}

/// In the mixed mode a line of one input keeps its words, but for a path at its
/// end.
pub proof fn a_single_line_drops_its_path(line: Seq<char>, columns: Seq<Seq<char>>, last: Seq<char>)
    requires
        words(line) == columns.push(last),
    ensures
        columns.len() >= 1 && parse_unsigned(last, 0xffff_ffff_ffff_ffff) is None ==> single_line(
            line,
            WcMode::Mixed,
        ) == join(columns, " "@),
        columns.len() >= 1 && parse_unsigned(last, 0xffff_ffff_ffff_ffff) is Some ==> single_line(
            line,
            WcMode::Mixed,
        ) == join(columns.push(last), " "@),
        columns.len() == 0 ==> single_line(line, WcMode::Mixed) == trim(line),
{
    assert(columns.push(last).drop_last() =~= columns);
    assert(is_count(last) == (parse_unsigned(last, 0xffff_ffff_ffff_ffff) is Some));
}

/// The row of a file in the table of a mode of one column is its first word and
/// its path, of which the common prefix is stripped. The row of the totals has a
/// mark in place of the path, before it.
pub proof fn a_row_shows_its_column(
    line: Seq<char>,
    columns: Seq<Seq<char>>,
    last: Seq<char>,
    mode: WcMode,
    prefix: Seq<char>,
)
    requires
        words(line) == columns.push(last),
        mode != WcMode::Full,
        mode != WcMode::Mixed,
    ensures
        last != "total"@ ==> table_row(line, mode, prefix) == words(line)[0] + " "@
            + without_prefix(last, prefix),
        last == "total"@ ==> table_row(line, mode, prefix) == "Σ "@ + words(line)[0],
{
    assert(words(line).last() == last);
}

/// The row of a file in the full table has lines, words and bytes and its path,
/// that of the totals lines, words and bytes behind a mark, where zeros stand for
/// what is missing.
pub proof fn a_row_shows_three_columns(line: Seq<char>, prefix: Seq<char>)
    requires
        words(line).len() > 0,
    ensures
        ({
            let w = words(line);
            let row = table_row(line, WcMode::Full, prefix);
            let second = if w.len() >= 2 {
                w[1]
            } else {
                "0"@
            };
            let third = if w.len() >= 3 {
                w[2]
            } else {
                "0"@
            };
            if w[w.len() - 1] == "total"@ {
                row == "Σ "@ + (w[0] + "L "@ + second + "W "@ + third + "B"@)
            } else if w.len() >= 4 {
                row == (w[0] + "L "@ + w[1] + "W "@ + w[2] + "B"@) + " "@ + without_prefix(
                    w[3],
                    prefix,
                )
            } else {
                row == trim(line)
            }
        }),
{
}

/// The row of a file in the mixed table has all its words, of which the common
/// prefix of the last is stripped, unless that is a number. The row of the totals
/// has all words but the last behind a mark.
pub proof fn a_row_shows_mixed_columns(
    line: Seq<char>,
    columns: Seq<Seq<char>>,
    last: Seq<char>,
    prefix: Seq<char>,
)
    requires
        words(line) == columns.push(last),
    ensures
        ({
            let row = table_row(line, WcMode::Mixed, prefix);
            if last == "total"@ {
                row == "Σ "@ + join(columns, " "@)
            } else if columns.len() == 0 {
                row == trim(line)
            } else if parse_unsigned(last, 0xffff_ffff_ffff_ffff) is Some {
                row == join(columns.push(last), " "@)
            } else {
                row == join(columns, " "@) + " "@ + without_prefix(last, prefix)
            }
        }),
{
    assert(columns.push(last).drop_last() =~= columns);
    assert(words(line).last() == last);
    assert(is_count(last) == (parse_unsigned(last, 0xffff_ffff_ffff_ffff) is Some));
}

/// A line in which a word stands adds a row to the table and, but for that of the
/// totals, its last word to the paths. Other lines add nothing.
pub proof fn each_line_adds_its_row(
    rows: Seq<Seq<char>>,
    line: Seq<char>,
    mode: WcMode,
    prefix: Seq<char>,
)
    ensures
        named_paths(Seq::empty()).len() == 0,
        table_rows(Seq::empty(), mode, prefix).len() == 0,
        words(line).len() == 0 ==> named_paths(rows.push(line)) == named_paths(rows) && table_rows(
            rows.push(line),
            mode,
            prefix,
        ) == table_rows(rows, mode, prefix),
        words(line).len() > 0 ==> table_rows(rows.push(line), mode, prefix) == table_rows(
            rows,
            mode,
            prefix,
        ).push(table_row(line, mode, prefix)),
        words(line).len() > 0 && words(line).last() == "total"@ ==> named_paths(rows.push(line))
            == named_paths(rows),
        words(line).len() > 0 && words(line).last() != "total"@ ==> named_paths(rows.push(line))
            == named_paths(rows).push(words(line).last()),
{
    assert(rows.push(line).drop_last() =~= rows);
}

/// No line gives nothing, one line is that of a single input, and of more a table
/// is made, whose rows stand on lines of their own and from whose paths the
/// common prefix of all of them is stripped.
pub proof fn the_number_of_lines_decides(raw: Seq<char>, mode: WcMode)
    ensures
        ({
            let rows = lines(trim(raw));
            &&& rows.len() == 0 ==> compact_wc(raw, mode).len() == 0
            &&& rows.len() == 1 ==> compact_wc(raw, mode) == single_line(rows[0], mode)
            &&& rows.len() >= 2 ==> compact_wc(raw, mode) == table(rows, mode)
            &&& table(rows, mode) == join(
                table_rows(rows, mode, common_prefix(named_paths(rows))),
                seq!['\n'],
            )
        }),
{
    reveal_strlit("\n");
    assert("\n"@ =~= seq!['\n']);
}

/// Lines are counted by their line feeds, words and characters in the text, and
/// bytes as they are.
pub proof fn each_count_counts_its_own(bytes: Seq<u8>, text: Seq<char>)
    requires
        bytes.len() <= usize::MAX,
        text.len() <= usize::MAX,
        words(text).len() <= usize::MAX,
    ensures
        stats_of(bytes, text).lines == bytes.filter(|b: u8| b == 10u8).len(),
        stats_of(bytes, text).words == words(text).len(),
        stats_of(bytes, text).bytes == bytes.len(),
        stats_of(bytes, text).chars == text.len(),
{
    bytes.lemma_filter_len(|b: u8| b == 10);
    assert(newlines(bytes) == bytes.filter(|b: u8| b == 10u8).len());
}

/// A line feed adds one line, another byte none.
pub proof fn line_feeds_end_lines(bytes: Seq<u8>, b: u8)
    ensures
        newlines(Seq::empty()) == 0,
        newlines(bytes.push(b)) == newlines(bytes) + if b == 10 {
            1nat
        } else {
            0nat
        },
{
    let feed = |x: u8| x == 10;
    bytes.lemma_filter_push(b, feed);
    assert(Seq::<u8>::empty().filter(feed) =~= Seq::empty()) by {
        reveal(Seq::filter);
    }
}

/// A further file adds its counts to the totals, each to its own.
pub proof fn each_file_adds_to_the_totals(rows: Seq<WcStats>, s: WcStats)
    ensures
        sum(lines_of(rows.push(s))) == sum(lines_of(rows)) + s.lines,
        sum(words_of(rows.push(s))) == sum(words_of(rows)) + s.words,
        sum(bytes_of(rows.push(s))) == sum(bytes_of(rows)) + s.bytes,
        sum(chars_in(rows.push(s))) == sum(chars_in(rows)) + s.chars,
        sum(Seq::empty()) == 0,
        totals(rows).lines == sum(lines_of(rows)) as usize,
        totals(rows).words == sum(words_of(rows)) as usize,
        totals(rows).bytes == sum(bytes_of(rows)) as usize,
        totals(rows).chars == sum(chars_in(rows)) as usize,
{
    assert(lines_of(rows.push(s)).drop_last() =~= lines_of(rows));
    assert(words_of(rows.push(s)).drop_last() =~= words_of(rows));
    assert(bytes_of(rows.push(s)).drop_last() =~= bytes_of(rows));
    assert(chars_in(rows.push(s)).drop_last() =~= chars_in(rows));
}

/// The report on one file is its counts. That on two or more has a line for each
/// with its path, and a line for the totals at the end.
pub proof fn two_files_make_a_table(rows: Seq<WcStats>, paths: Seq<Seq<char>>, mode: WcMode)
    requires
        rows.len() == paths.len(),
    ensures
        rows.len() == 1 ==> wc_report(rows, paths, mode) == stats_text(rows[0], mode),
        rows.len() >= 2 ==> exists|texts: Seq<Seq<char>>| #[trigger]
            join(texts, seq!['\n']) == wc_report(rows, paths, mode) && texts.len() == rows.len() + 1
                && texts[rows.len() as int] == "Σ "@ + stats_text(totals(rows), mode) && forall|i: int|
                0 <= i < rows.len() ==> #[trigger] texts[i] == stats_text(rows[i], mode) + " "@
                    + paths[i],
{
    reveal_strlit("\n");
    assert("\n"@ =~= seq!['\n']);
    let texts = Seq::new(rows.len(), |i: int| stats_text(rows[i], mode) + " "@ + paths[i]).push(
        "Σ "@ + stats_text(totals(rows), mode),
    );
    if rows.len() >= 2 {
        assert(join(texts, seq!['\n']) == wc_report(rows, paths, mode));
    }
}

/// Where all files could be read, the report is on their counts.
pub proof fn read_files_are_reported(args: Seq<Seq<char>>, contents: Seq<Option<Vec<u8>>>)
    requires
        wc_paths(args).len() > 0,
        forall|i: int| 0 <= i < contents.len() ==> #[trigger] contents[i] is Some,
    ensures
        wc_result(args, contents) == Ok::<Seq<char>, Seq<char>>(
            wc_report(all_stats(file_bytes(contents)), wc_paths(args), mode_of(requested(args))),
        ),
        forall|i: int|
            0 <= i < contents.len() ==> #[trigger] all_stats(file_bytes(contents))[i] == stats_of(
                contents[i].unwrap()@,
                utf8_lossy(contents[i].unwrap()@),
            ),
        all_stats(file_bytes(contents)).len() == contents.len(),
        file_bytes(contents).len() == contents.len(),
        forall|i: int|
            0 <= i < contents.len() ==> #[trigger] file_bytes(contents)[i] == contents[i].unwrap()@,
{
    lemma_all_read(contents);
}

proof fn lemma_all_read(contents: Seq<Option<Vec<u8>>>)
    requires
        forall|i: int| 0 <= i < contents.len() ==> #[trigger] contents[i] is Some,
    ensures
        read_len(contents) == contents.len(),
    decreases contents.len(),
{
    if contents.len() > 0 {
        let rest = contents.drop_first();
        assert(contents[0] is Some);
        assert forall|i: int| 0 <= i < rest.len() implies #[trigger] rest[i] is Some by {
            assert(rest[i] == contents[i + 1]);
        }
        lemma_all_read(rest);
    }
}

/// Without a path there is nothing to count, whatever could be read.
pub proof fn without_a_path_there_is_no_report(args: Seq<Seq<char>>, contents: Seq<Option<Vec<u8>>>)
    requires
        wc_paths(args).len() == 0,
    ensures
        wc_result(args, contents) is Err,
{
}

/// Each file is counted for itself, in its place.
pub proof fn each_file_is_counted(files: Seq<Seq<u8>>, bytes: Seq<u8>)
    ensures
        all_stats(Seq::empty()).len() == 0,
        all_stats(files.push(bytes)) == all_stats(files).push(stats_of(bytes, utf8_lossy(bytes))),
        decoded_stats(Seq::empty()).len() == 0,
        decoded_stats(files.push(bytes)) == decoded_stats(files).push(
            stats_of(bytes, decode_utf8(bytes)),
        ),
{
    assert(all_stats(files.push(bytes)) =~= all_stats(files).push(
        stats_of(bytes, utf8_lossy(bytes)),
    ));
    assert(decoded_stats(files.push(bytes)) =~= decoded_stats(files).push(
        stats_of(bytes, decode_utf8(bytes)),
    ));
}

} // verus!
