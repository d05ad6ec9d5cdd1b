//! Compact output of `wc`: redundant paths and alignment padding are dropped.

use crate::number::{
    decimal, decimal_holds_digits, decimal_holds_no_space, parse_number, parse_unsigned,
    push_decimal,
};
use crate::std_text::{decode_lossy, newlines, utf8_lossy};
use crate::text::{
    chars_of, first_word, has_prefix, is_white_space, join, joined, lemma_line_feeds_fit,
    lemma_word_len, lines,
    same_text, split_lines, split_words, starts_with, str_views, string_of, strings_from, trim,
    trimmed, trimming_twice, views, word_len, words, words_of_trimmed_text,
};
use vstd::prelude::*;
use vstd::utf8::{decode_utf8, valid_utf8};

verus! {

/// Which columns were asked for.
#[derive(Debug, Clone, Copy, PartialEq, Eq, Structural)]
pub enum WcMode {
    /// Lines, words and bytes.
    Full,
    /// Lines only (`-l`).
    Lines,
    /// Words only (`-w`).
    Words,
    /// Bytes only (`-c`).
    Bytes,
    /// Characters only (`-m`).
    Chars,
    /// More than one column letter.
    Mixed,
}

/// Whether a flag letter names a column.
pub open spec fn is_column(c: char) -> bool {
    c == 'l' || c == 'w' || c == 'c' || c == 'm'
}

/// The column letters of one argument: those after its dash.
pub open spec fn columns_of(arg: Seq<char>) -> Seq<char> {
    if arg.len() > 0 && arg[0] == '-' {
        arg.drop_first().filter(|c: char| is_column(c))
    } else {
        Seq::empty()
    }
}

/// The column letters of all arguments, in order.
pub open spec fn requested(args: Seq<Seq<char>>) -> Seq<char>
    decreases args.len(),
{
    if args.len() == 0 {
        Seq::empty()
    } else {
        requested(args.drop_last()) + columns_of(args.last())
    }
}

/// The mode that a row of column letters asks for.
pub open spec fn mode_of(letters: Seq<char>) -> WcMode {
    if letters.len() == 0 {
        WcMode::Full
    } else if letters.len() > 1 {
        WcMode::Mixed
    } else if letters[0] == 'l' {
        WcMode::Lines
    } else if letters[0] == 'w' {
        WcMode::Words
    } else if letters[0] == 'c' {
        WcMode::Bytes
    } else {
        WcMode::Chars
    }
}

fn push_columns(letters: &mut Vec<char>, arg: &str)
    ensures
        final(letters)@ == old(letters)@ + columns_of(arg@),
{
    let cs = chars_of(arg);
    if cs.len() == 0 || cs[0] != '-' {
        assert(letters@ =~= old(letters)@ + columns_of(arg@));
        return;
    }
    let ghost tail = arg@.drop_first();
    let ghost column = |c: char| is_column(c);
    let mut i: usize = 1;
    proof {
        reveal(Seq::filter);
        assert(tail.take(0).filter(column) =~= Seq::empty());
        assert(letters@ =~= old(letters)@ + tail.take(0).filter(column));
    }
    while i < cs.len()
        invariant
            1 <= i <= cs.len(),
            cs@ == arg@,
            tail == arg@.drop_first(),
            column == (|c: char| is_column(c)),
            letters@ == old(letters)@ + tail.take(i - 1).filter(column),
        decreases cs.len() - i,
    {
        let c = cs[i];
        proof {
            assert(tail.take(i as int) =~= tail.take(i - 1).push(c));
            tail.take(i - 1).lemma_filter_push(c, column);
        }
        if c == 'l' || c == 'w' || c == 'c' || c == 'm' {
            letters.push(c);
        }
        i = i + 1;
        assert(letters@ =~= old(letters)@ + tail.take(i - 1).filter(column));
    }
    assert(tail.take(tail.len() as int) =~= tail);
}

/// Finds out which columns the arguments ask for. The letters of all flags
/// count, whether one flag holds them or several.
pub fn detect_mode(args: &[String]) -> (r: WcMode)
    ensures
        r == mode_of(requested(views(args@))),
{
    let mut letters: Vec<char> = Vec::new();
    let ghost all = views(args@);
    let mut i: usize = 0;
    assert(all.take(0) =~= Seq::empty());
    while i < args.len()
        invariant
            i <= args.len(),
            all == views(args@),
            letters@ == requested(all.take(i as int)),
        decreases args.len() - i,
    {
        push_columns(&mut letters, args[i].as_str());
        i = i + 1;
        assert(all.take(i as int).drop_last() =~= all.take(i - 1));
    }
    assert(all.take(all.len() as int) =~= all);
    if letters.len() == 0 {
        WcMode::Full
    } else if letters.len() > 1 {
        WcMode::Mixed
    } else if letters[0] == 'l' {
        WcMode::Lines
    } else if letters[0] == 'w' {
        WcMode::Words
    } else if letters[0] == 'c' {
        WcMode::Bytes
    } else {
        WcMode::Chars
    }
}

/// The paths among the arguments: what follows the leading flags, or the first
/// `--` in their place.
pub open spec fn wc_paths(args: Seq<Seq<char>>) -> Seq<Seq<char>>
    decreases args.len(),
{
    if args.len() == 0 {
        args
    } else if args[0] == "--"@ {
        args.drop_first()
    } else if args[0].len() > 0 && args[0][0] == '-' {
        wc_paths(args.drop_first())
    } else {
        args
    }
}

/// The paths among the arguments.
pub fn extract_wc_paths(args: &[String]) -> (r: Vec<String>)
    ensures
        views(r@) == wc_paths(views(args@)),
{
    let ghost all = views(args@);
    let mut i: usize = 0;
    assert(all.skip(0) =~= all);
    while i < args.len() && starts_with(args[i].as_str(), "-") && !same_text(
        args[i].as_str(),
        "--",
    )
        invariant
            i <= args.len(),
            all == views(args@),
            wc_paths(all) == wc_paths(all.skip(i as int)),
        decreases args.len() - i,
    {
        proof {
            reveal_strlit("-");
            assert("-"@[0] == args@[i as int]@[0]);
            assert(all.skip(i as int).drop_first() =~= all.skip(i + 1));
        }
        i = i + 1;
    }
    proof {
        reveal_strlit("-");
        reveal_strlit("--");
        if i < args.len() {
            let a = all.skip(i as int)[0];
            if a.len() > 0 && a[0] == '-' {
                assert("-"@ =~= a.subrange(0, 1));
            }
            assert(all.skip(i as int).drop_first() =~= all.skip(i + 1));
        }
    }
    if i < args.len() && same_text(args[i].as_str(), "--") {
        i = i + 1;
    }
    strings_from(args, i)
}

/// What `wc` says where it has nothing to count.
pub fn windows_wc_unavailable_message() -> (r: &'static str)
    ensures
        r@ == "`rtk wc` falls back to native Windows counting when no standalone `wc` executable is available. PowerShell and cmd-native rewrites still flow through RTK compression."@,
{
    "`rtk wc` falls back to native Windows counting when no standalone `wc` executable is available. PowerShell and cmd-native rewrites still flow through RTK compression."
}

/// The counts of one file.
#[derive(Debug, Clone, Copy, PartialEq, Eq, Structural)]
pub struct WcStats {
    pub lines: usize,
    pub words: usize,
    pub bytes: usize,
    pub chars: usize,
}

impl Default for WcStats {
    fn default() -> (r: Self)
        ensures
            r == (WcStats { lines: 0, words: 0, bytes: 0, chars: 0 }),
    {
        WcStats { lines: 0, words: 0, bytes: 0, chars: 0 }
    }
}

/// The text of a count, or of several, in the columns of `mode`.
pub open spec fn stats_text(stats: WcStats, mode: WcMode) -> Seq<char> {
    let l = decimal(stats.lines as nat);
    let w = decimal(stats.words as nat);
    let b = decimal(stats.bytes as nat);
    let c = decimal(stats.chars as nat);
    match mode {
        WcMode::Lines => l,
        WcMode::Words => w,
        WcMode::Bytes => b,
        WcMode::Chars => c,
        WcMode::Full => l + "L "@ + w + "W "@ + b + "B"@,
        WcMode::Mixed => l + " "@ + w + " "@ + b + " "@ + c,
    }
}

/// Writes counts in the columns of `mode`.
pub fn format_single_wc_stats(stats: WcStats, mode: &WcMode) -> (r: String)
    ensures
        r@ == stats_text(stats, *mode),
{
    let mut out = String::new();
    match mode {
        WcMode::Lines => push_decimal(&mut out, stats.lines as u64),
        WcMode::Words => push_decimal(&mut out, stats.words as u64),
        WcMode::Bytes => push_decimal(&mut out, stats.bytes as u64),
        WcMode::Chars => push_decimal(&mut out, stats.chars as u64),
        WcMode::Full => {
            push_decimal(&mut out, stats.lines as u64);
            out.append("L ");
            push_decimal(&mut out, stats.words as u64);
            out.append("W ");
            push_decimal(&mut out, stats.bytes as u64);
            out.append("B");
        },
        WcMode::Mixed => {
            push_decimal(&mut out, stats.lines as u64);
            out.append(" ");
            push_decimal(&mut out, stats.words as u64);
            out.append(" ");
            push_decimal(&mut out, stats.bytes as u64);
            out.append(" ");
            push_decimal(&mut out, stats.chars as u64);
        },
    }
    assert(out@ =~= stats_text(stats, *mode));
    out
}

/// Whether `p` names a directory in which all of `paths` lie.
pub open spec fn is_shared_dir(p: Seq<char>, paths: Seq<Seq<char>>) -> bool {
    &&& p.len() > 0
    &&& p.last() == '/'
    &&& forall|i: int| 0 <= i < paths.len() ==> p.is_prefix_of(#[trigger] paths[i])
}

/// The longest shared directory among the first `n` prefixes of the first path,
/// or the empty text.
pub open spec fn longest_shared_dir(paths: Seq<Seq<char>>, n: nat) -> Seq<char>
    decreases n,
{
    if n == 0 {
        Seq::empty()
    } else if is_shared_dir(paths[0].take(n as int), paths) {
        paths[0].take(n as int)
    } else {
        longest_shared_dir(paths, (n - 1) as nat)
    }
}

/// The longest directory that two or more paths share, or the empty text.
pub open spec fn common_prefix(paths: Seq<Seq<char>>) -> Seq<char> {
    if paths.len() <= 1 {
        Seq::empty()
    } else {
        longest_shared_dir(paths, paths[0].len())
    }
}

fn all_start_with(paths: &[&str], prefix: &Vec<char>) -> (r: bool)
    ensures
        r == forall|i: int|
            0 <= i < paths.len() ==> prefix@.is_prefix_of(#[trigger] str_views(paths@)[i]),
{
    let mut i: usize = 0;
    while i < paths.len()
        invariant
            i <= paths.len(),
            forall|j: int| 0 <= j < i ==> prefix@.is_prefix_of(#[trigger] str_views(paths@)[j]),
        decreases paths.len() - i,
    {
        let cs = chars_of(paths[i]);
        assert(cs@ == str_views(paths@)[i as int]);
        if !has_prefix(&cs, prefix) {
            return false;
        }
        i = i + 1;
    }
    true
}

/// Finds the longest directory that the paths share.
pub fn find_common_prefix(paths: &[&str]) -> (r: String)
    ensures
        r@ == common_prefix(str_views(paths@)),
{
    if paths.len() <= 1 {
        return String::new();
    }
    let ghost all = str_views(paths@);
    let mut candidate = chars_of(paths[0]);
    assert(all[0].take(all[0].len() as int) =~= all[0]);
    while candidate.len() > 0
        invariant
            paths.len() > 1,
            all == str_views(paths@),
            candidate.len() <= all[0].len(),
            candidate@ == all[0].take(candidate.len() as int),
            common_prefix(all) == longest_shared_dir(all, candidate.len() as nat),
        decreases candidate.len(),
    {
        if candidate[candidate.len() - 1] == '/' && all_start_with(paths, &candidate) {
            return string_from(&candidate);
        }
        let _ = candidate.pop();
        assert(candidate@ =~= all[0].take(candidate.len() as int));
    }
    String::new()
}

fn string_from(cs: &Vec<char>) -> (r: String)
    ensures
        r@ == cs@,
{
    let r = string_of(cs, 0, cs.len());
    assert(cs@.subrange(0, cs.len() as int) =~= cs@);
    r
}

/// `path` without `prefix` at its start.
pub open spec fn without_prefix(path: Seq<char>, prefix: Seq<char>) -> Seq<char> {
    if prefix.is_prefix_of(path) {
        path.skip(prefix.len() as int)
    } else {
        path
    }
}

/// Strips `prefix` from `path`, where it begins with it.
pub fn strip_prefix<'a>(path: &'a str, prefix: &str) -> (r: &'a str)
    ensures
        r@ == without_prefix(path@, prefix@),
{
    if starts_with(path, prefix) {
        let r = path.substring_char(prefix.unicode_len(), path.unicode_len());
        assert(r@ =~= path@.skip(prefix@.len() as int));
        r
    } else {
        path
    }
}

/// Whether a word is a number that `wc` may have counted.
pub open spec fn is_count(word: Seq<char>) -> bool {
    parse_unsigned(word, u64::MAX as nat) is Some
}

/// The compact form of the one line that `wc` prints for a single input.
pub open spec fn single_line(line: Seq<char>, mode: WcMode) -> Seq<char> {
    let parts = words(line);
    match mode {
        WcMode::Lines | WcMode::Words | WcMode::Bytes | WcMode::Chars => if parts.len() > 0 {
            parts[0]
        } else {
            Seq::empty()
        },
        WcMode::Full => if parts.len() >= 3 {
            parts[0] + "L "@ + parts[1] + "W "@ + parts[2] + "B"@
        } else {
            trim(line)
        },
        WcMode::Mixed => if parts.len() < 2 {
            trim(line)
        } else if is_count(parts.last()) {
            join(parts, " "@)
        } else {
            join(parts.drop_last(), " "@)
        },
    }
}

/// Formats the one line that `wc` prints for a single input.
pub fn format_single_line(line: &str, mode: &WcMode) -> (r: String)
    ensures
        r@ == single_line(line@, *mode),
{
    let mut parts = split_words(line);
    let ghost all = words(line@);
    match mode {
        WcMode::Lines | WcMode::Words | WcMode::Bytes | WcMode::Chars => {
            if parts.len() > 0 {
                assert(all[0] == parts@[0]@);
                parts[0].clone()
            } else {
                String::new()
            }
        },
        WcMode::Full => {
            if parts.len() >= 3 {
                assert(all[0] == parts@[0]@ && all[1] == parts@[1]@ && all[2] == parts@[2]@);
                full_columns(parts[0].as_str(), parts[1].as_str(), parts[2].as_str())
            } else {
                trimmed(line)
            }
        },
        WcMode::Mixed => {
            if parts.len() < 2 {
                return trimmed(line);
            }
            assert(all.last() == parts@.last()@);
            if parse_number(parts[parts.len() - 1].as_str(), u64::MAX).is_none() {
                let _ = parts.pop();
                assert(views(parts@) =~= all.drop_last());
            }
            joined(parts.as_slice(), " ")
        },
    }
}

fn full_columns(l: &str, w: &str, b: &str) -> (r: String)
    ensures
        r@ == l@ + "L "@ + w@ + "W "@ + b@ + "B"@,
{
    let mut out = l.to_owned();
    out.append("L ");
    out.append(w);
    out.append("W ");
    out.append(b);
    out.append("B");
    out
}

/// The word at `i`, or a zero.
pub open spec fn column_at(parts: Seq<Seq<char>>, i: int) -> Seq<char> {
    if i < parts.len() {
        parts[i]
    } else {
        "0"@
    }
}

/// The row of the compact table for one line, in which some word stands.
pub open spec fn table_row(line: Seq<char>, mode: WcMode, prefix: Seq<char>) -> Seq<char> {
    let parts = words(line);
    let is_total = parts.last() == "total"@;
    match mode {
        WcMode::Lines | WcMode::Words | WcMode::Bytes | WcMode::Chars => if is_total {
            "Σ "@ + parts[0]
        } else {
            parts[0] + " "@ + without_prefix(parts.last(), prefix)
        },
        WcMode::Full => if is_total {
            "Σ "@ + (parts[0] + "L "@ + column_at(parts, 1) + "W "@ + column_at(parts, 2) + "B"@)
        } else if parts.len() >= 4 {
            (parts[0] + "L "@ + parts[1] + "W "@ + parts[2] + "B"@) + " "@ + without_prefix(
                parts[3],
                prefix,
            )
        } else {
            trim(line)
        },
        WcMode::Mixed => if is_total {
            "Σ "@ + join(parts.drop_last(), " "@)
        } else if parts.len() < 2 {
            trim(line)
        } else if is_count(parts.last()) {
            join(parts, " "@)
        } else {
            join(parts.drop_last(), " "@) + " "@ + without_prefix(parts.last(), prefix)
        },
    }
}

fn labelled(label: &str, rest: &str) -> (r: String)
    ensures
        r@ == label@ + rest@,
{
    let mut out = label.to_owned();
    out.append(rest);
    out
}

fn with_name(columns: &str, name: &str) -> (r: String)
    ensures
        r@ == columns@ + " "@ + name@,
{
    let mut out = columns.to_owned();
    out.append(" ");
    out.append(name);
    out
}

fn format_row(line: &str, mode: &WcMode, prefix: &str) -> (r: String)
    requires
        words(line@).len() > 0,
    ensures
        r@ == table_row(line@, *mode, prefix@),
{
    let mut parts = split_words(line);
    let ghost all = words(line@);
    let n = parts.len();
    let last = parts[n - 1].clone();
    let is_total = same_text(last.as_str(), "total");
    proof {
        assert(forall|i: int| 0 <= i < n ==> all[i] == #[trigger] parts@[i]@);
        assert(all.last() == last@);
    }
    match mode {
        WcMode::Lines | WcMode::Words | WcMode::Bytes | WcMode::Chars => {
            if is_total {
                labelled("Σ ", parts[0].as_str())
            } else {
                with_name(parts[0].as_str(), strip_prefix(last.as_str(), prefix))
            }
        },
        WcMode::Full => {
            if is_total {
                let w = if n > 1 {
                    parts[1].as_str()
                } else {
                    "0"
                };
                let b = if n > 2 {
                    parts[2].as_str()
                } else {
                    "0"
                };
                let columns = full_columns(parts[0].as_str(), w, b);
                labelled("Σ ", columns.as_str())
            } else if n >= 4 {
                let columns = full_columns(
                    parts[0].as_str(),
                    parts[1].as_str(),
                    parts[2].as_str(),
                );
                with_name(columns.as_str(), strip_prefix(parts[3].as_str(), prefix))
            } else {
                trimmed(line)
            }
        },
        WcMode::Mixed => {
            if !is_total && n < 2 {
                return trimmed(line);
            }
            if !is_total && parse_number(last.as_str(), u64::MAX).is_some() {
                return joined(parts.as_slice(), " ");
            }
            let _ = parts.pop();
            assert(views(parts@) =~= all.drop_last());
            let columns = joined(parts.as_slice(), " ");
            if is_total {
                labelled("Σ ", columns.as_str())
            } else {
                with_name(columns.as_str(), strip_prefix(last.as_str(), prefix))
            }
        },
    }
}

/// The paths that the lines of `wc` name: their last words, but for `total`.
pub open spec fn named_paths(rows: Seq<Seq<char>>) -> Seq<Seq<char>>
    decreases rows.len(),
{
    if rows.len() == 0 {
        Seq::empty()
    } else {
        let parts = words(rows.last());
        if parts.len() > 0 && parts.last() != "total"@ {
            named_paths(rows.drop_last()).push(parts.last())
        } else {
            named_paths(rows.drop_last())
        }
    }
}

/// The rows of the compact table: one for each line in which a word stands.
pub open spec fn table_rows(rows: Seq<Seq<char>>, mode: WcMode, prefix: Seq<char>) -> Seq<Seq<char>>
    decreases rows.len(),
{
    if rows.len() == 0 {
        Seq::empty()
    } else if words(rows.last()).len() > 0 {
        table_rows(rows.drop_last(), mode, prefix).push(table_row(rows.last(), mode, prefix))
    } else {
        table_rows(rows.drop_last(), mode, prefix)
    }
}

/// The compact table for the lines of several inputs.
pub open spec fn table(rows: Seq<Seq<char>>, mode: WcMode) -> Seq<char> {
    join(table_rows(rows, mode, common_prefix(named_paths(rows))), "\n"@)
}

fn last_words(lines: &[&str]) -> (r: Vec<String>)
    ensures
        views(r@) == named_paths(str_views(lines@)),
{
    let ghost all = str_views(lines@);
    let mut out: Vec<String> = Vec::new();
    let mut i: usize = 0;
    assert(all.take(0) =~= Seq::empty());
    while i < lines.len()
        invariant
            i <= lines.len(),
            all == str_views(lines@),
            views(out@) == named_paths(all.take(i as int)),
        decreases lines.len() - i,
    {
        let ghost before = out@;
        let mut parts = split_words(lines[i]);
        proof {
            assert(all.take(i + 1).drop_last() =~= all.take(i as int));
            assert(all.take(i + 1).last() == lines@[i as int]@);
            assert(views(parts@).len() == parts@.len());
        }
        i = i + 1;
        match parts.pop() {
            Some(last) => {
                assert(words(all.take(i as int).last()).last() == last@);
                if !same_text(last.as_str(), "total") {
                    out.push(last);
                    assert(views(out@) =~= views(before).push(last@));
                }
            },
            None => {},
        }
    }
    assert(all.take(all.len() as int) =~= all);
    out
}

/// Borrows each of the strings.
pub fn as_strs<'a>(v: &'a Vec<String>) -> (r: Vec<&'a str>)
    ensures
        str_views(r@) == views(v@),
{
    let mut out: Vec<&'a str> = Vec::new();
    let mut i: usize = 0;
    while i < v.len()
        invariant
            i <= v.len(),
            out.len() == i,
            forall|j: int| 0 <= j < i ==> #[trigger] out@[j]@ == v@[j]@,
        decreases v.len() - i,
    {
        out.push(v[i].as_str());
        i = i + 1;
    }
    assert(str_views(out@) =~= views(v@));
    out
}

/// Formats the lines of several inputs as a compact table. The directory that
/// all paths share is dropped.
pub fn format_multi_line(lines: &[&str], mode: &WcMode) -> (r: String)
    ensures
        r@ == table(str_views(lines@), *mode),
{
    let ghost all = str_views(lines@);
    let paths = last_words(lines);
    let borrowed = as_strs(&paths);
    let prefix = find_common_prefix(borrowed.as_slice());
    let mut result: Vec<String> = Vec::new();
    let mut i: usize = 0;
    assert(all.take(0) =~= Seq::empty());
    while i < lines.len()
        invariant
            i <= lines.len(),
            all == str_views(lines@),
            views(result@) == table_rows(all.take(i as int), *mode, prefix@),
        decreases lines.len() - i,
    {
        let ghost before = result@;
        proof {
            assert(all.take(i + 1).drop_last() =~= all.take(i as int));
            assert(all.take(i + 1).last() == lines@[i as int]@);
        }
        let parts = split_words(lines[i]);
        assert(views(parts@).len() == parts@.len());
        if parts.len() > 0 {
            let row = format_row(lines[i], mode, prefix.as_str());
            result.push(row);
            assert(views(result@) =~= views(before).push(row@));
        }
        i = i + 1;
    }
    assert(all.take(all.len() as int) =~= all);
    joined(result.as_slice(), "\n")
}

/// The compact form of what `wc` printed.
pub open spec fn compact_wc(raw: Seq<char>, mode: WcMode) -> Seq<char> {
    let rows = lines(trim(raw));
    if rows.len() == 0 {
        Seq::empty()
    } else if rows.len() == 1 {
        single_line(rows[0], mode)
    } else {
        table(rows, mode)
    }
}

/// Compacts what `wc` printed.
pub fn filter_wc_output(raw: &str, mode: &WcMode) -> (r: String)
    ensures
        r@ == compact_wc(raw@, *mode),
{
    let text = trimmed(raw);
    let rows = split_lines(text.as_str());
    let ghost all = lines(trim(raw@));
    assert(views(rows@).len() == rows@.len());
    if rows.len() == 0 {
        return String::new();
    }
    if rows.len() == 1 {
        assert(all[0] == rows@[0]@);
        return format_single_line(rows[0].as_str(), mode);
    }
    let borrowed = as_strs(&rows);
    format_multi_line(borrowed.as_slice(), mode)
}

/// The counts of a file that holds `bytes`, which decode to `text`.
pub open spec fn stats_of(bytes: Seq<u8>, text: Seq<char>) -> WcStats {
    WcStats {
        lines: newlines(bytes) as usize,
        words: words(text).len() as usize,
        bytes: bytes.len() as usize,
        chars: text.len() as usize,
    }
}

fn count_newlines(bytes: &[u8]) -> (r: usize)
    ensures
        r == newlines(bytes@),
{
    let ghost feed = |b: u8| b == 10;
    let mut n: usize = 0;
    let mut i: usize = 0;
    proof {
        reveal(Seq::filter);
        assert(bytes@.take(0).filter(feed).len() == 0);
    }
    while i < bytes.len()
        invariant
            n <= i <= bytes.len(),
            feed == (|b: u8| b == 10),
            n == bytes@.take(i as int).filter(feed).len(),
        decreases bytes.len() - i,
    {
        proof {
            assert(bytes@.take(i + 1) =~= bytes@.take(i as int).push(bytes@[i as int]));
            bytes@.take(i as int).lemma_filter_push(bytes@[i as int], feed);
        }
        if bytes[i] == 10 {
            n = n + 1;
        }
        i = i + 1;
    }
    assert(bytes@.take(bytes.len() as int) =~= bytes@);
    n
}

/// Counts the bytes of a file and the words and characters of its text.
pub fn count_text(bytes: &[u8], text: &str) -> (r: WcStats)
    ensures
        r == stats_of(bytes@, text@),
        r.lines == newlines(bytes@),
        r.words == words(text@).len(),
        r.bytes == bytes@.len(),
        r.chars == text@.len(),
{
    let parts = split_words(text);
    assert(views(parts@).len() == parts@.len());
    WcStats {
        lines: count_newlines(bytes),
        words: parts.len(),
        bytes: bytes.len(),
        chars: text.unicode_len(),
    }
}

/// Counts a file that holds `bytes`.
pub fn count_wc_stats(bytes: &[u8]) -> (r: WcStats)
    ensures
        r == stats_of(bytes@, utf8_lossy(bytes@)),
        r.lines == newlines(bytes@),
        r.words == words(utf8_lossy(bytes@)).len(),
        r.bytes == bytes@.len(),
        r.chars == utf8_lossy(bytes@).len(),
        r.words <= r.chars <= r.bytes,
        r.lines <= r.chars,
        valid_utf8(bytes@) ==> r == stats_of(bytes@, decode_utf8(bytes@)),
        valid_utf8(bytes@) ==> r.words == words(decode_utf8(bytes@)).len(),
        valid_utf8(bytes@) ==> r.chars == decode_utf8(bytes@).len(),
{
    let text = decode_lossy(bytes);
    proof {
        lemma_words_fit(text@);
        lemma_line_feeds_fit(text@);
    }
    count_text(bytes, text.as_str())
}

/// A text has no more words than characters.
proof fn lemma_words_fit(s: Seq<char>)
    ensures
        words(s).len() <= s.len(),
    decreases s.len(),
{
    if s.len() > 0 {
        if is_white_space(s[0]) {
            lemma_words_fit(s.drop_first());
        } else {
            lemma_word_len(s);
            lemma_words_fit(s.skip(word_len(s) as int));
        }
    }
}

/// The sum of a row of numbers.
pub open spec fn sum(s: Seq<nat>) -> nat
    decreases s.len(),
{
    if s.len() == 0 {
        0
    } else {
        sum(s.drop_last()) + s.last()
    }
}

proof fn lemma_sum_grows(s: Seq<nat>, k: int)
    requires
        0 <= k <= s.len(),
    ensures
        sum(s.take(k)) <= sum(s),
    decreases s.len() - k,
{
    if k == s.len() {
        assert(s.take(k) =~= s);
    } else {
        lemma_sum_grows(s, k + 1);
        assert(s.take(k + 1).drop_last() =~= s.take(k));
    }
}

proof fn lemma_sum_bounded(a: Seq<nat>, b: Seq<nat>)
    requires
        a.len() == b.len(),
        forall|i: int| 0 <= i < a.len() ==> #[trigger] a[i] <= b[i],
    ensures
        sum(a) <= sum(b),
    decreases a.len(),
{
    if a.len() > 0 {
        assert(a.last() <= b.last());
        lemma_sum_bounded(a.drop_last(), b.drop_last());
    }
}

/// How many lines each file has.
pub open spec fn lines_of(rows: Seq<WcStats>) -> Seq<nat> {
    Seq::new(rows.len(), |i: int| rows[i].lines as nat)
}

/// How many words each file has.
pub open spec fn words_of(rows: Seq<WcStats>) -> Seq<nat> {
    Seq::new(rows.len(), |i: int| rows[i].words as nat)
}

/// How many bytes each file has.
pub open spec fn bytes_of(rows: Seq<WcStats>) -> Seq<nat> {
    Seq::new(rows.len(), |i: int| rows[i].bytes as nat)
}

/// How many characters each file has.
pub open spec fn chars_in(rows: Seq<WcStats>) -> Seq<nat> {
    Seq::new(rows.len(), |i: int| rows[i].chars as nat)
}

/// Whether the sums of all columns can be held in a `usize`.
pub open spec fn totals_fit(rows: Seq<WcStats>) -> bool {
    &&& sum(lines_of(rows)) <= usize::MAX
    &&& sum(words_of(rows)) <= usize::MAX
    &&& sum(bytes_of(rows)) <= usize::MAX
    &&& sum(chars_in(rows)) <= usize::MAX
}

/// The sums of all columns.
pub open spec fn totals(rows: Seq<WcStats>) -> WcStats {
    WcStats {
        lines: sum(lines_of(rows)) as usize,
        words: sum(words_of(rows)) as usize,
        bytes: sum(bytes_of(rows)) as usize,
        chars: sum(chars_in(rows)) as usize,
    }
}

/// Sums up all columns.
pub fn total_stats(rows: &[WcStats]) -> (r: WcStats)
    requires
        totals_fit(rows@),
    ensures
        r == totals(rows@),
        r.lines == sum(lines_of(rows@)),
        r.words == sum(words_of(rows@)),
        r.bytes == sum(bytes_of(rows@)),
        r.chars == sum(chars_in(rows@)),
{
    let mut total = WcStats::default();
    let mut i: usize = 0;
    let ghost (l, w, b, c) = (
        lines_of(rows@),
        words_of(rows@),
        bytes_of(rows@),
        chars_in(rows@),
    );
    while i < rows.len()
        invariant
            i <= rows.len(),
            totals_fit(rows@),
            l == lines_of(rows@),
            w == words_of(rows@),
            b == bytes_of(rows@),
            c == chars_in(rows@),
            total.lines == sum(l.take(i as int)),
            total.words == sum(w.take(i as int)),
            total.bytes == sum(b.take(i as int)),
            total.chars == sum(c.take(i as int)),
        decreases rows.len() - i,
    {
        let row = rows[i];
        proof {
            let k = i + 1;
            lemma_sum_grows(l, k);
            lemma_sum_grows(w, k);
            lemma_sum_grows(b, k);
            lemma_sum_grows(c, k);
            assert(l.take(k).drop_last() =~= l.take(i as int));
            assert(w.take(k).drop_last() =~= w.take(i as int));
            assert(b.take(k).drop_last() =~= b.take(i as int));
            assert(c.take(k).drop_last() =~= c.take(i as int));
        }
        total.lines = total.lines + row.lines;
        total.words = total.words + row.words;
        total.bytes = total.bytes + row.bytes;
        total.chars = total.chars + row.chars;
        i = i + 1;
    }
    proof {
        let n = rows.len() as int;
        assert(l.take(n) =~= l);
        assert(w.take(n) =~= w);
        assert(b.take(n) =~= b);
        assert(c.take(n) =~= c);
    }
    total
}

/// The report on several files: one row each, then a row with the totals. A
/// single file gets its counts alone.
pub open spec fn wc_report(rows: Seq<WcStats>, paths: Seq<Seq<char>>, mode: WcMode) -> Seq<char> {
    if rows.len() == 1 {
        stats_text(rows[0], mode)
    } else {
        join(
            Seq::new(rows.len(), |i: int| stats_text(rows[i], mode) + " "@ + paths[i]).push(
                "Σ "@ + stats_text(totals(rows), mode),
            ),
            "\n"@,
        )
    }
}

/// Writes the report on the files `paths`, whose counts are `rows`.
pub fn render_wc_rows(rows: &[WcStats], paths: &[String], mode: &WcMode) -> (r: String)
    requires
        rows.len() == paths.len(),
        totals_fit(rows@),
    ensures
        r@ == wc_report(rows@, views(paths@), *mode),
{
    if rows.len() == 1 {
        return format_single_wc_stats(rows[0], mode);
    }
    let ghost names = views(paths@);
    let ghost texts = Seq::new(
        rows@.len(),
        |i: int| stats_text(rows@[i], *mode) + " "@ + names[i],
    );
    let mut rendered: Vec<String> = Vec::new();
    let mut i: usize = 0;
    while i < rows.len()
        invariant
            i <= rows.len(),
            rows.len() == paths.len(),
            names == views(paths@),
            texts == Seq::new(
                rows@.len(),
                |i: int| stats_text(rows@[i], *mode) + " "@ + names[i],
            ),
            views(rendered@) == texts.take(i as int),
        decreases rows.len() - i,
    {
        let ghost before = rendered@;
        let columns = format_single_wc_stats(rows[i], mode);
        let row = with_name(columns.as_str(), paths[i].as_str());
        rendered.push(row);
        proof {
            assert(row@ == texts[i as int]);
            assert(views(rendered@) =~= views(before).push(row@));
            assert(texts.take(i + 1) =~= texts.take(i as int).push(row@));
        }
        i = i + 1;
    }
    let total = total_stats(rows);
    let columns = format_single_wc_stats(total, mode);
    let last = labelled("Σ ", columns.as_str());
    let ghost before = rendered@;
    rendered.push(last);
    proof {
        assert(texts.take(texts.len() as int) =~= texts);
        assert(views(rendered@) =~= views(before).push(last@));
    }
    joined(rendered.as_slice(), "\n")
}

/// The bytes of the files that could be read.
pub open spec fn file_bytes(contents: Seq<Option<Vec<u8>>>) -> Seq<Seq<u8>> {
    Seq::new(
        contents.len(),
        |i: int|
            match contents[i] {
                Some(bytes) => bytes@,
                None => Seq::empty(),
            },
    )
}

/// The number of bytes in all files.
pub open spec fn total_len(files: Seq<Seq<u8>>) -> nat {
    sum(Seq::new(files.len(), |i: int| files[i].len()))
}

/// The counts of each file.
pub open spec fn all_stats(files: Seq<Seq<u8>>) -> Seq<WcStats> {
    Seq::new(files.len(), |i: int| stats_of(files[i], utf8_lossy(files[i])))
}

/// The counts of each file, where all of them hold valid UTF-8.
pub open spec fn decoded_stats(files: Seq<Seq<u8>>) -> Seq<WcStats> {
    Seq::new(files.len(), |i: int| stats_of(files[i], decode_utf8(files[i])))
}

/// How many files could be read before the first that could not.
pub open spec fn read_len(contents: Seq<Option<Vec<u8>>>) -> nat
    decreases contents.len(),
{
    if contents.len() == 0 || contents[0] is None {
        0
    } else {
        1 + read_len(contents.drop_first())
    }
}

/// The report on the files that the arguments name, given their bytes: the whole
/// of it, or what went wrong first. Without a path there is nothing to count.
pub open spec fn wc_result(args: Seq<Seq<char>>, contents: Seq<Option<Vec<u8>>>) -> Result<
    Seq<char>,
    Seq<char>,
> {
    let paths = wc_paths(args);
    let n = read_len(contents);
    if paths.len() == 0 {
        Err(
            "`rtk wc` falls back to native Windows counting when no standalone `wc` executable is available. PowerShell and cmd-native rewrites still flow through RTK compression."@,
        )
    } else if n < contents.len() {
        Err("failed to read "@ + paths[n as int])
    } else {
        Ok(wc_report(all_stats(file_bytes(contents)), paths, mode_of(requested(args))))
    }
}

/// Counts the files that the arguments name. `contents` holds their bytes, in
/// the order of the paths, where they could be read. Where one could not be,
/// there is no report, and those behind it need not be read.
pub fn render_windows_wc(args: &[String], contents: &Vec<Option<Vec<u8>>>) -> (r: Result<
    String,
    String,
>)
    requires
        contents.len() <= wc_paths(views(args@)).len(),
        contents.len() < wc_paths(views(args@)).len() ==> read_len(contents@) < contents.len(),
        read_len(contents@) == contents.len() ==> total_len(file_bytes(contents@)) <= usize::MAX,
    ensures
        match r {
            Ok(t) => wc_result(views(args@), contents@) == Ok::<Seq<char>, Seq<char>>(t@),
            Err(e) => wc_result(views(args@), contents@) == Err::<Seq<char>, Seq<char>>(e@),
        },
        forall|i: int|
            0 <= i < read_len(contents@) && valid_utf8(file_bytes(contents@)[i]) ==> #[trigger] all_stats(
                file_bytes(contents@),
            )[i] == stats_of(file_bytes(contents@)[i], decode_utf8(file_bytes(contents@)[i])),
        (forall|i: int| 0 <= i < contents.len() ==> valid_utf8(#[trigger] file_bytes(contents@)[i]))
            ==> (r matches Ok(t) ==> t@ == wc_report(
            decoded_stats(file_bytes(contents@)),
            wc_paths(views(args@)),
            mode_of(requested(views(args@))),
        )),
{
    let ghost files = file_bytes(contents@);
    let mode = detect_mode(args);
    let paths = extract_wc_paths(args);
    assert(views(paths@).len() == paths@.len());
    if paths.len() == 0 {
        return Err(windows_wc_unavailable_message().to_owned());
    }
    let mut rows: Vec<WcStats> = Vec::new();
    let mut i: usize = 0;
    assert(contents@.skip(0) =~= contents@);
    while i < contents.len()
        invariant
            i <= contents.len() <= paths.len(),
            files == file_bytes(contents@),
            views(paths@) == wc_paths(views(args@)),
            views(paths@).len() == paths@.len(),
            paths.len() > 0,
            read_len(contents@) == i + read_len(contents@.skip(i as int)),
            rows@.len() == i,
            rows@ == all_stats(files).take(i as int),
            forall|j: int|
                0 <= j < i && valid_utf8(files[j]) ==> #[trigger] rows@[j] == stats_of(
                    files[j],
                    decode_utf8(files[j]),
                ),
            forall|j: int|
                0 <= j < i ==> {
                    let row = #[trigger] rows@[j];
                    row.lines <= files[j].len() && row.words <= files[j].len() && row.bytes
                        <= files[j].len() && row.chars <= files[j].len()
                },
        decreases contents.len() - i,
    {
        assert(contents@.skip(i as int)[0] == contents@[i as int]);
        assert(contents@.skip(i as int).drop_first() =~= contents@.skip(i + 1));
        match &contents[i] {
            Some(bytes) => {
                let stats = count_wc_stats(bytes.as_slice());
                rows.push(stats);
            },
            None => {
                assert(views(paths@)[i as int] == paths@[i as int]@);
                proof {
                    assert forall|j: int|
                        0 <= j < i && valid_utf8(files[j]) implies #[trigger] all_stats(files)[j]
                        == stats_of(files[j], decode_utf8(files[j])) by {
                        assert(all_stats(files)[j] == rows@[j]);
                    }
                }
                return Err(labelled("failed to read ", paths[i].as_str()));
            },
        }
        i = i + 1;
        assert(rows@ =~= all_stats(files).take(i as int));
    }
    proof {
        assert(rows@ =~= all_stats(files));
        if forall|i: int| 0 <= i < contents.len() ==> valid_utf8(#[trigger] files[i]) {
            assert(rows@ =~= decoded_stats(files));
        }
        let lens = Seq::new(files.len(), |i: int| files[i].len());
        lemma_sum_bounded(lines_of(rows@), lens);
        lemma_sum_bounded(words_of(rows@), lens);
        lemma_sum_bounded(bytes_of(rows@), lens);
        lemma_sum_bounded(chars_in(rows@), lens);
    }
    Ok(render_wc_rows(rows.as_slice(), paths.as_slice(), &mode))
}

/// The first file that could not be read is named, and there is no report.
pub proof fn unread_file_is_named(args: Seq<Seq<char>>, contents: Seq<Option<Vec<u8>>>, k: int)
    requires
        0 <= k < contents.len() <= wc_paths(args).len(),
        contents[k] is None,
        forall|j: int| 0 <= j < k ==> #[trigger] contents[j] is Some,
    ensures
        wc_result(args, contents) == Err::<Seq<char>, Seq<char>>(
            "failed to read "@ + wc_paths(args)[k],
        ),
{
    lemma_read_len(contents, k);
}

proof fn lemma_read_len(contents: Seq<Option<Vec<u8>>>, k: int)
    requires
        0 <= k < contents.len(),
        contents[k] is None,
        forall|j: int| 0 <= j < k ==> #[trigger] contents[j] is Some,
    ensures
        read_len(contents) == k,
    decreases k,
{
    if k > 0 {
        let rest = contents.drop_first();
        assert(contents[0] is Some);
        assert forall|j: int| 0 <= j < k - 1 implies #[trigger] rest[j] is Some by {
            assert(rest[j] == contents[j + 1]);
        }
        lemma_read_len(rest, k - 1);
    }
}

/// How `wc` is run for a request.
#[derive(Debug)]
pub struct WcCommand {
    /// The arguments that `wc` gets.
    pub args: Vec<String>,
    /// The arguments under which the run is recorded.
    pub label: String,
    /// The columns that its output has.
    pub mode: WcMode,
}

/// Decides how `wc` is run: with the arguments as they are.
pub fn run(args: &[String]) -> (r: WcCommand)
    ensures
        views(r.args@) == views(args@),
        r.label@ == join(views(args@), " "@),
        r.mode == mode_of(requested(views(args@))),
{
    let copied = strings_from(args, 0);
    assert(views(args@).skip(0) =~= views(args@));
    WcCommand { args: copied, label: joined(args, " "), mode: detect_mode(args) }
}

proof fn lemma_requested_append(a: Seq<Seq<char>>, b: Seq<Seq<char>>)
    ensures
        requested(a + b) == requested(a) + requested(b),
    decreases b.len(),
{
    if b.len() == 0 {
        assert(a + b =~= a);
        assert(requested(a) + requested(b) =~= requested(a));
    } else {
        assert((a + b).drop_last() =~= a + b.drop_last());
        lemma_requested_append(a, b.drop_last());
        assert((requested(a) + requested(b.drop_last())) + columns_of(b.last()) =~= requested(a) + (
        requested(b.drop_last()) + columns_of(b.last())));
    }
}

/// A flag that holds several letters asks for what the letters ask for in flags
/// of their own.
pub proof fn combined_flags_equal_separate_flags(
    before: Seq<Seq<char>>,
    x: Seq<char>,
    y: Seq<char>,
    after: Seq<Seq<char>>,
)
    ensures
        mode_of(requested(before + seq!["-"@ + x + y] + after)) == mode_of(
            requested(before + seq!["-"@ + x, "-"@ + y] + after),
        ),
{
    reveal_strlit("-");
    let both = "-"@ + x + y;
    let (fx, fy) = ("-"@ + x, "-"@ + y);
    let column = |c: char| is_column(c);
    assert(both.drop_first() =~= x + y);
    assert(fx.drop_first() =~= x);
    assert(fy.drop_first() =~= y);
    Seq::filter_distributes_over_add(x, y, column);
    assert(columns_of(both) == columns_of(fx) + columns_of(fy));
    assert(requested(seq![both]) =~= columns_of(both)) by {
        assert(seq![both].drop_last() =~= Seq::empty());
        assert(requested(Seq::empty()) =~= Seq::empty());
    }
    assert(requested(seq![fx, fy]) =~= columns_of(fx) + columns_of(fy)) by {
        assert(seq![fx, fy].drop_last() =~= seq![fx]);
        assert(seq![fx].drop_last() =~= Seq::empty());
        assert(requested(Seq::empty()) =~= Seq::empty());
        assert(requested(seq![fx]) =~= columns_of(fx));
    }
    lemma_requested_append(before, seq![both]);
    lemma_requested_append(before, seq![fx, fy]);
    lemma_requested_append(before + seq![both], after);
    lemma_requested_append(before + seq![fx, fy], after);
}

/// Arguments that are no flags change nothing about the columns.
pub proof fn paths_ask_for_no_columns(before: Seq<Seq<char>>, path: Seq<char>)
    requires
        path.len() == 0 || path[0] != '-',
    ensures
        mode_of(requested(before.push(path))) == mode_of(requested(before)),
{
    assert(before.push(path).drop_last() =~= before);
    assert(requested(before) + columns_of(path) =~= requested(before));
}

/// The paths are the end of the arguments: from the first path on, all of them.
pub proof fn wc_paths_end_the_arguments(args: Seq<Seq<char>>)
    ensures
        wc_paths(args).is_suffix_of(args),
    decreases args.len(),
{
    if args.len() > 0 {
        if args[0] == "--"@ {
            assert(args.subrange(1, args.len() as int) =~= args.drop_first());
        } else if args[0].len() > 0 && args[0][0] == '-' {
            let rest = args.drop_first();
            wc_paths_end_the_arguments(rest);
            let p = wc_paths(rest);
            assert(rest.subrange(rest.len() - p.len(), rest.len() as int) =~= args.subrange(
                args.len() - p.len(),
                args.len() as int,
            ));
        } else {
            assert(args.subrange(0, args.len() as int) =~= args);
        }
    } else {
        assert(args.subrange(0, 0) =~= args);
    }
}

proof fn lemma_longest(paths: Seq<Seq<char>>, n: nat, p: Seq<char>)
    requires
        paths.len() > 0,
        n <= paths[0].len(),
    ensures
        longest_shared_dir(paths, n).len() == 0 || is_shared_dir(
            longest_shared_dir(paths, n),
            paths,
        ),
        longest_shared_dir(paths, n).is_prefix_of(paths[0]),
        is_shared_dir(p, paths) && p.len() <= n ==> p.is_prefix_of(longest_shared_dir(paths, n)),
    decreases n,
{
    let r = longest_shared_dir(paths, n);
    let first = paths[0];
    if n == 0 {
        assert(r =~= first.subrange(0, 0));
    } else {
        let here = first.take(n as int);
        if is_shared_dir(here, paths) {
            assert(here =~= first.subrange(0, n as int));
        } else {
            lemma_longest(paths, (n - 1) as nat, p);
        }
        if is_shared_dir(p, paths) && p.len() <= n {
            assert(p.is_prefix_of(first));
            assert(p =~= first.subrange(0, p.len() as int));
            if p.len() == n {
                assert(p =~= here);
            }
            if is_shared_dir(here, paths) {
                assert(p =~= here.subrange(0, p.len() as int));
            }
        }
    }
}

/// The common prefix is a directory that all paths share, if it is not empty,
/// and every other such directory lies above it.
pub proof fn common_prefix_is_longest(paths: Seq<Seq<char>>, p: Seq<char>)
    requires
        paths.len() > 1,
    ensures
        common_prefix(paths).len() == 0 || is_shared_dir(common_prefix(paths), paths),
        is_shared_dir(p, paths) ==> p.is_prefix_of(common_prefix(paths)),
{
    if is_shared_dir(p, paths) {
        assert(p.is_prefix_of(paths[0]));
    }
    lemma_longest(paths, paths[0].len(), p);
}

/// What is stripped from a path can be put back.
pub proof fn stripping_can_be_undone(paths: Seq<Seq<char>>, i: int)
    requires
        0 <= i < paths.len(),
    ensures
        common_prefix(paths) + without_prefix(paths[i], common_prefix(paths)) == paths[i],
{
    let prefix = common_prefix(paths);
    if paths.len() > 1 {
        common_prefix_is_longest(paths, Seq::empty());
    }
    if prefix.len() == 0 {
        assert(prefix =~= paths[i].subrange(0, 0));
    } else {
        assert(prefix.is_prefix_of(paths[i]));
    }
    assert(prefix + paths[i].skip(prefix.len() as int) =~= paths[i]);
}

/// How many of the lines hold a word.
pub open spec fn lines_with_words(rows: Seq<Seq<char>>) -> nat
    decreases rows.len(),
{
    if rows.len() == 0 {
        0
    } else if words(rows.last()).len() > 0 {
        lines_with_words(rows.drop_last()) + 1
    } else {
        lines_with_words(rows.drop_last())
    }
}

/// The compact table has one row for each line that holds a word.
pub proof fn one_row_per_line(rows: Seq<Seq<char>>, mode: WcMode, prefix: Seq<char>)
    ensures
        table_rows(rows, mode, prefix).len() == lines_with_words(rows),
    decreases rows.len(),
{
    if rows.len() > 0 {
        one_row_per_line(rows.drop_last(), mode, prefix);
    }
}

/// Alignment does not matter: white space around the line of a single input
/// changes nothing, nor does that between its columns, where there are enough
/// of them.
pub proof fn padding_does_not_matter(a: Seq<char>, b: Seq<char>, mode: WcMode)
    requires
        words(a) == words(b),
        mode == WcMode::Full ==> words(a).len() >= 3,
        mode == WcMode::Mixed ==> words(a).len() >= 2,
    ensures
        single_line(a, mode) == single_line(b, mode),
{
}

/// White space around the line of a single input changes nothing.
pub proof fn outer_space_does_not_matter(line: Seq<char>, mode: WcMode)
    ensures
        single_line(trim(line), mode) == single_line(line, mode),
{
    words_of_trimmed_text(line);
    trimming_twice(line);
}

/// The line that `wc` prints for one file: the columns of `mode`, in which no
/// letters are mixed, then the path.
pub open spec fn wc_line(stats: WcStats, mode: WcMode, path: Seq<char>) -> Seq<char> {
    let l = decimal(stats.lines as nat);
    let w = decimal(stats.words as nat);
    let b = decimal(stats.bytes as nat);
    let c = decimal(stats.chars as nat);
    match mode {
        WcMode::Lines => l + " "@ + path,
        WcMode::Words => w + " "@ + path,
        WcMode::Bytes => b + " "@ + path,
        WcMode::Chars => c + " "@ + path,
        _ => l + " "@ + (w + " "@ + (b + " "@ + path)),
    }
}

/// The output of `wc` for one file is compacted to what counting the file
/// oneself gives, unless several letters ask for the columns.
pub proof fn compacted_output_equals_own_counts(stats: WcStats, mode: WcMode, path: Seq<char>)
    requires
        mode != WcMode::Mixed,
    ensures
        single_line(wc_line(stats, mode, path), mode) == stats_text(stats, mode),
{
    let l = decimal(stats.lines as nat);
    let w = decimal(stats.words as nat);
    let b = decimal(stats.bytes as nat);
    let c = decimal(stats.chars as nat);
    assert forall|n: nat| (#[trigger] decimal(n)).len() > 0 by {
        decimal_holds_digits(n);
    }
    decimal_holds_no_space(stats.lines as nat);
    decimal_holds_no_space(stats.words as nat);
    decimal_holds_no_space(stats.bytes as nat);
    decimal_holds_no_space(stats.chars as nat);
    match mode {
        WcMode::Lines => first_word(l, path),
        WcMode::Words => first_word(w, path),
        WcMode::Bytes => first_word(b, path),
        WcMode::Chars => first_word(c, path),
        _ => {
            let from_bytes = b + " "@ + path;
            let from_words = w + " "@ + from_bytes;
            first_word(b, path);
            first_word(w, from_bytes);
            first_word(l, from_words);
        },
    }
}

} // verus!
