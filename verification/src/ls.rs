//! Directory listings in a compact form.

use crate::dates::{
    date_at, first_date, first_date_between, first_date_is_greedy, first_date_is_one,
    first_date_stays, is_first_date, some_date_is_first,
};
use crate::listing::{
    entries_text, names_are_lines, one_line_per_entry, render_listing, summary_text,
};
use crate::number::{decimal, parse_number, parse_unsigned, push_decimal};
use crate::pattern::{compile, find, Finder, LS_DATE};
use crate::sort::row_views;
use crate::text::{
    chars_of, has_char, is_white_space, join, joined, lemma_words_nonempty, line_feeds, lines,
    lines_hold_no_line_feed, lower_text, lowered, same_text,
    split_lines, split_words, starts_with, string_of, strings_from, views, words,
};
use vstd::prelude::*;

verus! {

/// What a call of `ls` asks for.
#[derive(Debug, PartialEq)]
pub struct LsRequest {
    pub show_all: bool,
    pub recursive: bool,
    pub paths: Vec<String>,
    pub passthrough_flags: Vec<String>,
}

/// Whether `arg` begins with two dashes.
pub open spec fn is_long(arg: Seq<char>) -> bool {
    "--"@.is_prefix_of(arg)
}

/// Whether `arg` is a slash and more.
pub open spec fn is_slashed(arg: Seq<char>) -> bool {
    arg.len() > 1 && arg[0] == '/'
}

/// Whether `arg` is a dash and more.
pub open spec fn is_dashed(arg: Seq<char>) -> bool {
    arg.len() > 1 && arg[0] == '-'
}

/// Whether `arg` is an option, where one may stand.
pub open spec fn is_option(arg: Seq<char>) -> bool {
    is_long(arg) || is_slashed(arg) || is_dashed(arg)
}

/// How many arguments at the start are options. The argument `--` is none.
pub open spec fn options_len(args: Seq<Seq<char>>) -> nat
    decreases args.len(),
{
    if args.len() == 0 || args[0] == "--"@ || !is_option(args[0]) {
        0
    } else {
        1 + options_len(args.drop_first())
    }
}

/// The options at the start.
pub open spec fn ls_options(args: Seq<Seq<char>>) -> Seq<Seq<char>> {
    args.take(options_len(args) as int)
}

/// The paths: what follows the options, but for a `--` right behind them.
pub open spec fn ls_paths(args: Seq<Seq<char>>) -> Seq<Seq<char>> {
    let rest = args.skip(options_len(args) as int);
    if rest.len() > 0 && rest[0] == "--"@ {
        rest.drop_first()
    } else {
        rest
    }
}

/// Whether an option is the PowerShell word for hidden files.
pub open spec fn is_force(arg: Seq<char>) -> bool {
    lower_text(arg) == "-force"@
}

/// Whether an option is the PowerShell word for subdirectories.
pub open spec fn is_recurse(arg: Seq<char>) -> bool {
    lower_text(arg) == "-recurse"@
}

/// Whether an option asks for all files.
pub open spec fn sets_all(arg: Seq<char>) -> bool {
    if is_long(arg) {
        arg == "--all"@
    } else if is_slashed(arg) {
        lower_text(arg.drop_first()) == "a"@
    } else {
        is_force(arg) || (!is_recurse(arg) && arg.drop_first().contains('a'))
    }
}

/// Whether an option asks for subdirectories.
pub open spec fn sets_recursive(arg: Seq<char>) -> bool {
    if is_long(arg) {
        arg == "--recursive"@
    } else if is_slashed(arg) {
        lower_text(arg.drop_first()) == "s"@
    } else {
        is_recurse(arg) || (!is_force(arg) && arg.drop_first().contains('R'))
    }
}

/// Whether a letter of a dashed option is left to `ls`.
pub open spec fn is_extra(c: char) -> bool {
    c != 'a' && c != 'R' && c != 'l' && c != 'h' && c != '1'
}

/// What of an option is left to `ls`.
pub open spec fn forwarded(arg: Seq<char>) -> Option<Seq<char>> {
    if is_long(arg) {
        if arg == "--all"@ || arg == "--recursive"@ || arg == "--long"@ || arg
            == "--human-readable"@ {
            None
        } else {
            Some(arg)
        }
    } else if is_slashed(arg) {
        if lower_text(arg.drop_first()) == "a"@ || lower_text(arg.drop_first()) == "s"@ {
            None
        } else {
            Some(arg)
        }
    } else {
        let extra = arg.drop_first().filter(|c: char| is_extra(c));
        if is_force(arg) || is_recurse(arg) || extra.len() == 0 {
            None
        } else {
            Some("-"@ + extra)
        }
    }
}

/// What of the options is left to `ls`.
pub open spec fn forwarded_flags(options: Seq<Seq<char>>) -> Seq<Seq<char>>
    decreases options.len(),
{
    if options.len() == 0 {
        Seq::empty()
    } else {
        match forwarded(options.last()) {
            Some(flag) => forwarded_flags(options.drop_last()).push(flag),
            None => forwarded_flags(options.drop_last()),
        }
    }
}

/// Whether some option asks for all files.
pub open spec fn any_sets_all(options: Seq<Seq<char>>) -> bool {
    exists|i: int| 0 <= i < options.len() && sets_all(#[trigger] options[i])
}

/// Whether some option asks for subdirectories.
pub open spec fn any_sets_recursive(options: Seq<Seq<char>>) -> bool {
    exists|i: int| 0 <= i < options.len() && sets_recursive(#[trigger] options[i])
}

fn option_here(arg: &str) -> (r: bool)
    ensures
        r == is_option(arg@),
{
    let cs = chars_of(arg);
    starts_with(arg, "--") || (cs.len() > 1 && (cs[0] == '/' || cs[0] == '-'))
}

fn tail_of(arg: &str) -> (r: String)
    requires
        arg@.len() > 0,
    ensures
        r@ == arg@.drop_first(),
{
    let cs = chars_of(arg);
    let r = string_of(&cs, 1, cs.len());
    assert(r@ =~= arg@.drop_first());
    r
}

fn is_slashed_here(arg: &str) -> (r: bool)
    ensures
        r == is_slashed(arg@),
{
    let cs = chars_of(arg);
    cs.len() > 1 && cs[0] == '/'
}

fn asks_for_all(arg: &str) -> (r: bool)
    requires
        is_option(arg@),
    ensures
        r == sets_all(arg@),
{
    if starts_with(arg, "--") {
        return same_text(arg, "--all");
    }
    let tail = tail_of(arg);
    if is_slashed_here(arg) {
        let low = lowered(tail.as_str());
        return same_text(low.as_str(), "a");
    }
    let low = lowered(arg);
    same_text(low.as_str(), "-force") || (!same_text(low.as_str(), "-recurse") && has_char(
        tail.as_str(),
        'a',
    ))
}

fn asks_for_subdirectories(arg: &str) -> (r: bool)
    requires
        is_option(arg@),
    ensures
        r == sets_recursive(arg@),
{
    if starts_with(arg, "--") {
        return same_text(arg, "--recursive");
    }
    let tail = tail_of(arg);
    if is_slashed_here(arg) {
        let low = lowered(tail.as_str());
        return same_text(low.as_str(), "s");
    }
    let low = lowered(arg);
    same_text(low.as_str(), "-recurse") || (!same_text(low.as_str(), "-force") && has_char(
        tail.as_str(),
        'R',
    ))
}

fn extra_letters(tail: &str) -> (r: String)
    ensures
        r@ == tail@.filter(|c: char| is_extra(c)),
{
    let cs = chars_of(tail);
    let ghost extra = |c: char| is_extra(c);
    let mut out = String::new();
    let mut i: usize = 0;
    proof {
        reveal(Seq::filter);
        assert(cs@.take(0).filter(extra) =~= Seq::empty());
    }
    while i < cs.len()
        invariant
            i <= cs.len(),
            cs@ == tail@,
            extra == (|c: char| is_extra(c)),
            out@ == cs@.take(i as int).filter(extra),
        decreases cs.len() - i,
    {
        let c = cs[i];
        proof {
            assert(cs@.take(i + 1) =~= cs@.take(i as int).push(c));
            cs@.take(i as int).lemma_filter_push(c, extra);
        }
        if c != 'a' && c != 'R' && c != 'l' && c != 'h' && c != '1' {
            out.push(c);
        }
        i = i + 1;
    }
    assert(cs@.take(cs.len() as int) =~= cs@);
    out
}

fn left_to_ls(arg: &str) -> (r: Option<String>)
    requires
        is_option(arg@),
    ensures
        match r {
            Some(flag) => forwarded(arg@) == Some(flag@),
            None => forwarded(arg@) is None,
        },
{
    if starts_with(arg, "--") {
        if same_text(arg, "--all") || same_text(arg, "--recursive") || same_text(arg, "--long")
            || same_text(arg, "--human-readable") {
            return None;
        }
        return Some(arg.to_owned());
    }
    let tail = tail_of(arg);
    if is_slashed_here(arg) {
        let low = lowered(tail.as_str());
        if same_text(low.as_str(), "a") || same_text(low.as_str(), "s") {
            return None;
        }
        return Some(arg.to_owned());
    }
    let low = lowered(arg);
    if same_text(low.as_str(), "-force") || same_text(low.as_str(), "-recurse") {
        return None;
    }
    let extra = extra_letters(tail.as_str());
    if extra.as_str().is_empty() {
        return None;
    }
    let mut flag = "-".to_owned();
    flag.append(extra.as_str());
    Some(flag)
}

/// Reads the arguments of `ls`. The flags of PowerShell and of `cmd` are
/// understood as well. Behind `--` or the first path, all arguments are paths.
pub fn normalize_ls_args(args: &[String]) -> (r: LsRequest)
    ensures
        r.show_all == any_sets_all(ls_options(views(args@))),
        r.recursive == any_sets_recursive(ls_options(views(args@))),
        views(r.paths@) == ls_paths(views(args@)),
        views(r.passthrough_flags@) == forwarded_flags(ls_options(views(args@))),
{
    let ghost all = views(args@);
    let mut show_all = false;
    let mut recursive = false;
    let mut passthrough_flags: Vec<String> = Vec::new();
    let mut i: usize = 0;
    proof {
        assert(all.skip(0) =~= all);
        assert(all.take(0) =~= Seq::empty());
        assert(views(passthrough_flags@) =~= Seq::empty());
    }
    while i < args.len() && !same_text(args[i].as_str(), "--") && option_here(args[i].as_str())
        invariant
            i <= args.len(),
            all == views(args@),
            options_len(all) == i + options_len(all.skip(i as int)),
            show_all == any_sets_all(all.take(i as int)),
            recursive == any_sets_recursive(all.take(i as int)),
            views(passthrough_flags@) == forwarded_flags(all.take(i as int)),
        decreases args.len() - i,
    {
        let arg = args[i].as_str();
        let ghost here = all.take(i as int);
        let ghost next = all.take(i + 1);
        let ghost before = passthrough_flags@;
        proof {
            assert(all.skip(i as int)[0] == arg@);
            assert(all.skip(i as int).drop_first() =~= all.skip(i + 1));
            assert(next.drop_last() =~= here);
            assert(next.last() == arg@);
            assert(forall|j: int| 0 <= j < i ==> here[j] == next[j]);
            assert(next[i as int] == arg@);
        }
        let a = asks_for_all(arg);
        let s = asks_for_subdirectories(arg);
        proof {
            assert(any_sets_all(next) == (any_sets_all(here) || a)) by {
                if any_sets_all(here) {
                    let j = choose|j: int| 0 <= j < here.len() && sets_all(#[trigger] here[j]);
                    assert(sets_all(next[j]));
                }
                if any_sets_all(next) {
                    let j = choose|j: int| 0 <= j < next.len() && sets_all(#[trigger] next[j]);
                    assert(j < i ==> sets_all(here[j]));
                }
            }
            assert(any_sets_recursive(next) == (any_sets_recursive(here) || s)) by {
                if any_sets_recursive(here) {
                    let j = choose|j: int|
                        0 <= j < here.len() && sets_recursive(#[trigger] here[j]);
                    assert(sets_recursive(next[j]));
                }
                if any_sets_recursive(next) {
                    let j = choose|j: int|
                        0 <= j < next.len() && sets_recursive(#[trigger] next[j]);
                    assert(j < i ==> sets_recursive(here[j]));
                }
            }
        }
        show_all = show_all || a;
        recursive = recursive || s;
        match left_to_ls(arg) {
            Some(flag) => {
                passthrough_flags.push(flag);
                assert(views(passthrough_flags@) =~= views(before).push(flag@));
            },
            None => {},
        }
        i = i + 1;
    }
    proof {
        if i < args.len() {
            assert(all.skip(i as int)[0] == args@[i as int]@);
            assert(all.skip(i as int).drop_first() =~= all.skip(i + 1));
        }
        assert(options_len(all) == i);
    }
    if i < args.len() && same_text(args[i].as_str(), "--") {
        i = i + 1;
    }
    LsRequest { show_all, recursive, paths: strings_from(args, i), passthrough_flags }
}

/// What `ls` says where no `ls` can be run.
pub fn windows_ls_unavailable_message() -> (r: &'static str)
    ensures
        r@ == "`rtk ls` can translate PowerShell and cmd flags on Windows. Supported native aliases include `ls -Force`, `dir /a`, and `dir /s`, all routed through RTK compression."@,
{
    "`rtk ls` can translate PowerShell and cmd flags on Windows. Supported native aliases include `ls -Force`, `dir /a`, and `dir /s`, all routed through RTK compression."
}

/// The number nearest to the end of a row of words, or zero.
pub open spec fn last_number(parts: Seq<Seq<char>>) -> nat
    decreases parts.len(),
{
    if parts.len() == 0 {
        0
    } else {
        match parse_unsigned(parts.last(), u64::MAX as nat) {
            Some(n) => n,
            None => last_number(parts.drop_last()),
        }
    }
}

/// What a line of `ls -la` says, in which the date stands at `start..end`: the
/// type of the file, its size and its name.
pub open spec fn dated_fields(line: Seq<char>, start: int, end: int) -> Option<
    (char, u64, Seq<char>),
> {
    let before = words(line.take(start));
    if before.len() < 4 {
        None
    } else {
        Some((before[0][0], last_number(before) as u64, line.skip(end)))
    }
}

/// What a line of `ls -la` says, where a date stands in it.
pub open spec fn line_fields(line: Seq<char>) -> Option<(char, u64, Seq<char>)> {
    match first_date(line) {
        Some((start, end)) => dated_fields(line, start, end),
        None => None,
    }
}

/// The type, size and name of a file, as they are read.
pub open spec fn fields_view(f: Option<(char, u64, String)>) -> Option<(char, u64, Seq<char>)> {
    match f {
        Some((kind, size, name)) => Some((kind, size, name@)),
        None => None,
    }
}

fn find_last_number(parts: &Vec<String>) -> (r: u64)
    ensures
        r == last_number(views(parts@)),
{
    let ghost all = views(parts@);
    let mut i: usize = parts.len();
    assert(all.take(all.len() as int) =~= all);
    while i > 0
        invariant
            i <= parts.len(),
            all == views(parts@),
            last_number(all) == last_number(all.take(i as int)),
        decreases i,
    {
        assert(all.take(i as int).last() == parts@[i - 1]@);
        assert(all.take(i as int).drop_last() =~= all.take(i - 1));
        match parse_number(parts[i - 1].as_str(), u64::MAX) {
            Some(n) => {
                return n;
            },
            None => {},
        }
        i = i - 1;
    }
    0
}

/// Reads a line of `ls -la` in which the date stands at the characters
/// `start..end`. The size is the last number before the date, the name all that
/// follows it, so that the names of owners and groups may hold spaces.
pub fn parse_dated_line(line: &str, start: usize, end: usize) -> (r: Option<(char, u64, String)>)
    requires
        start <= end <= line@.len(),
    ensures
        fields_view(r) == dated_fields(line@, start as int, end as int),
        r matches Some((_, _, name)) ==> name@.is_suffix_of(line@),
{
    let cs = chars_of(line);
    let head = string_of(&cs, 0, start);
    let before = split_words(head.as_str());
    let ghost all = words(line@.take(start as int));
    proof {
        assert(head@ =~= line@.take(start as int));
        assert(views(before@).len() == before@.len());
        lemma_words_nonempty(head@);
    }
    if before.len() < 4 {
        return None;
    }
    assert(all[0] == before@[0]@);
    let kind = before[0].as_str().get_char(0);
    let size = find_last_number(&before);
    let name = string_of(&cs, end, cs.len());
    assert(name@ =~= line@.skip(end as int));
    assert(name@ =~= line@.subrange(line@.len() - name@.len(), line@.len() as int));
    Some((kind, size, name))
}

fn parse_line_with(finder: &Finder, line: &str) -> (r: Option<(char, u64, String)>)
    requires
        finder@ == LS_DATE@,
    ensures
        fields_view(r) == line_fields(line@),
        r matches Some((_, _, name)) ==> name@.is_suffix_of(line@),
{
    match find(finder, line) {
        Some((start, end)) => {
            proof {
                first_date_is_one(line@, start as int, end as int);
            }
            parse_dated_line(line, start, end)
        },
        None => {
            assert(forall|i: int, j: int| is_first_date(line@, i, j) ==> date_at(line@, i, j));
            None
        },
    }
}

/// Reads a line of `ls -la`. The date serves as the anchor.
pub fn parse_ls_line(line: &str) -> (r: Option<(char, u64, String)>)
    ensures
        fields_view(r) == line_fields(line@),
        r matches Some((_, _, name)) ==> name@.is_suffix_of(line@),
{
    let finder = compile(LS_DATE);
    parse_line_with(&finder, line)
}

/// Whether `line` consists of a date between what precedes it and a name. The
/// name does not begin with white space, and no date begins before this one.
pub open spec fn is_anchored(
    line: Seq<char>,
    before: Seq<char>,
    date: Seq<char>,
    name: Seq<char>,
) -> bool {
    &&& line == before + date + name
    &&& date_at(date, 0, date.len() as int)
    &&& name.len() > 0 ==> !is_white_space(name[0])
    &&& forall|i: int, j: int| 0 <= i < before.len() ==> !#[trigger] date_at(line, i, j)
}

/// A line is read by its date: what precedes it may hold any words, of which the
/// first gives the type of the file and the last number its size, and all that
/// follows it is the name.
pub proof fn the_date_is_the_anchor(
    line: Seq<char>,
    before: Seq<char>,
    date: Seq<char>,
    name: Seq<char>,
)
    requires
        is_anchored(line, before, date, name),
    ensures
        line_fields(line) == (if words(before).len() < 4 {
            None
        } else {
            Some((words(before)[0][0], last_number(words(before)) as u64, name))
        }),
{
    first_date_between(before, date, name);
    let (start, end) = (before.len() as int, (before.len() + date.len()) as int);
    first_date_is_one(line, start, end);
    assert(line.take(start) =~= before);
    assert(line.skip(end) =~= name);
}

/// A line stands for a file just where a date stands in it, with four words or
/// more before the first one.
pub proof fn a_date_makes_a_file(line: Seq<char>)
    ensures
        line_fields(line) is Some <==> (exists|i: int, j: int| #[trigger] date_at(line, i, j)) && words(
            line.take(first_date(line).unwrap().0),
        ).len() >= 4,
{
    if exists|i: int, j: int| #[trigger] date_at(line, i, j) {
        let (i, j) = choose|i: int, j: int| #[trigger] date_at(line, i, j);
        some_date_is_first(line, i, j);
    }
    if first_date(line) is Some {
        let (i, j) = first_date(line).unwrap();
        assert(is_first_date(line, i, j));
    }
}

/// No name begins with white space.
pub proof fn names_begin_bare(line: Seq<char>)
    ensures
        line_fields(line) matches Some((_, _, name)) ==> name.len() > 0 ==> !is_white_space(name[0]),
{
    if line_fields(line) is Some {
        let (start, end) = first_date(line).unwrap();
        assert(is_first_date(line, start, end));
        assert(date_at(line, start, end));
        if end < line.len() {
            first_date_is_greedy(line, start, end);
        }
    }
}

/// Text that is appended to a line whose name is not empty is appended to the
/// name, whatever it is.
pub proof fn appended_text_joins_the_name(line: Seq<char>, more: Seq<char>)
    requires
        line_fields(line) matches Some((_, _, name)) && name.len() > 0,
    ensures
        line_fields(line) matches Some((kind, size, name)) && line_fields(line + more) == Some(
            (kind, size, name + more),
        ),
{
    let (start, end) = first_date(line).unwrap();
    assert(is_first_date(line, start, end));
    assert(date_at(line, start, end));
    first_date_stays(line, more, start, end);
    first_date_is_one(line + more, start, end);
    assert((line + more).take(start) =~= line.take(start));
    assert((line + more).skip(end) =~= line.skip(end) + more);
}

/// A line whose name is not empty stays read by the same date, whatever is
/// appended to it.
pub proof fn appended_text_keeps_the_anchor(
    line: Seq<char>,
    before: Seq<char>,
    date: Seq<char>,
    name: Seq<char>,
    more: Seq<char>,
)
    requires
        is_anchored(line, before, date, name),
        name.len() > 0,
    ensures
        is_anchored(line + more, before, date, name + more),
{
    first_date_between(before, date, name);
    let (start, end) = (before.len() as int, (before.len() + date.len()) as int);
    first_date_stays(line, more, start, end);
    assert(line + more =~= before + date + (name + more));
    assert((name + more)[0] == name[0]);
}

proof fn lemma_suffix_without(part: Seq<char>, whole: Seq<char>, c: char)
    requires
        part.is_suffix_of(whole),
        !whole.contains(c),
    ensures
        !part.contains(c),
{
    assert forall|i: int| 0 <= i < part.len() implies part[i] != c by {
        assert(part[i] == whole[whole.len() - part.len() + i]);
        assert(whole.contains(whole[whole.len() - part.len() + i]));
    }
}

/// Whether a line of `ls -la` can stand for a file.
pub open spec fn is_entry_line(line: Seq<char>) -> bool {
    line.len() > 0 && !"total "@.is_prefix_of(line)
}

/// What the lines of `ls -la` say, but for those that stand for no file.
pub open spec fn parsed_lines(rows: Seq<Seq<char>>) -> Seq<(char, u64, Seq<char>)>
    decreases rows.len(),
{
    if rows.len() == 0 {
        Seq::empty()
    } else {
        let before = parsed_lines(rows.drop_last());
        match line_fields(rows.last()) {
            Some(f) if is_entry_line(rows.last()) => before.push(f),
            _ => before,
        }
    }
}

/// The fields of several files.
pub open spec fn all_fields(v: Seq<(char, u64, String)>) -> Seq<(char, u64, Seq<char>)> {
    Seq::new(v.len(), |i: int| (v[i].0, v[i].1, v[i].2@))
}

/// Reads what `ls -la` printed.
pub fn parse_ls_output(raw: &str) -> (r: Vec<(char, u64, String)>)
    ensures
        all_fields(r@) == parsed_lines(lines(raw@)),
        forall|i: int| 0 <= i < r@.len() ==> !(#[trigger] r@[i]).2@.contains('\n'),
{
    let finder = compile(LS_DATE);
    let rows = split_lines(raw);
    let ghost all = lines(raw@);
    let mut out: Vec<(char, u64, String)> = Vec::new();
    let mut i: usize = 0;
    proof {
        assert(all.take(0) =~= Seq::empty());
        assert(all_fields(out@) =~= Seq::empty());
        assert(views(rows@).len() == rows@.len());
        lines_hold_no_line_feed(raw@);
    }
    while i < rows.len()
        invariant
            i <= rows.len(),
            finder@ == LS_DATE@,
            all == views(rows@),
            forall|j: int| 0 <= j < all.len() ==> !(#[trigger] all[j]).contains('\n'),
            forall|j: int| 0 <= j < out@.len() ==> !(#[trigger] out@[j]).2@.contains('\n'),
            all_fields(out@) == parsed_lines(all.take(i as int)),
        decreases rows.len() - i,
    {
        let line = rows[i].as_str();
        let ghost before = out@;
        proof {
            assert(all.take(i + 1).drop_last() =~= all.take(i as int));
            assert(all.take(i + 1).last() == line@);
        }
        i = i + 1;
        if line.is_empty() || starts_with(line, "total ") {
            continue;
        }
        match parse_line_with(&finder, line) {
            Some(f) => {
                proof {
                    assert(!all[i - 1].contains('\n'));
                    lemma_suffix_without(f.2@, line@, '\n');
                }
                out.push(f);
                assert(all_fields(out@) =~= all_fields(before).push((f.0, f.1, f.2@)));
            },
            None => {},
        }
    }
    assert(all.take(all.len() as int) =~= all);
    out
}

/// Whether a directory of this name is left out of listings.
pub open spec fn is_noise(name: Seq<char>) -> bool {
    name == "node_modules"@ || name == ".git"@ || name == "target"@
}

/// Whether a directory of this name is left out of listings.
pub fn is_noise_dir(name: &str) -> (r: bool)
    ensures
        r == is_noise(name@),
{
    same_text(name, "node_modules") || same_text(name, ".git") || same_text(name, "target")
}

/// Whether a file of this name is listed.
pub open spec fn is_listed(name: Seq<char>, show_all: bool) -> bool {
    name != "."@ && name != ".."@ && (show_all || !is_noise(name))
}

/// The directories that are listed, in the order of `fields`.
pub open spec fn listed_dirs(fields: Seq<(char, u64, Seq<char>)>, show_all: bool) -> Seq<
    (Seq<char>, u64),
>
    decreases fields.len(),
{
    if fields.len() == 0 {
        Seq::empty()
    } else {
        let before = listed_dirs(fields.drop_last(), show_all);
        let (kind, size, name) = fields.last();
        if is_listed(name, show_all) && kind == 'd' {
            before.push((name, size))
        } else {
            before
        }
    }
}

/// The files and links that are listed, in the order of `fields`.
pub open spec fn listed_files(fields: Seq<(char, u64, Seq<char>)>, show_all: bool) -> Seq<
    (Seq<char>, u64),
>
    decreases fields.len(),
{
    if fields.len() == 0 {
        Seq::empty()
    } else {
        let before = listed_files(fields.drop_last(), show_all);
        let (kind, size, name) = fields.last();
        if is_listed(name, show_all) && (kind == '-' || kind == 'l') {
            before.push((name, size))
        } else {
            before
        }
    }
}

/// Lists files in a compact form: directories first, then files with their
/// sizes. The summary comes apart, so that it can be kept back.
pub fn compact_fields(fields: &Vec<(char, u64, String)>, show_all: bool) -> (r: (String, String))
    ensures
        r.0@ == entries_text(
            listed_dirs(all_fields(fields@), show_all),
            listed_files(all_fields(fields@), show_all),
        ),
        r.1@ == summary_text(
            listed_dirs(all_fields(fields@), show_all),
            listed_files(all_fields(fields@), show_all),
        ),
{
    let ghost all = all_fields(fields@);
    let mut dirs: Vec<(String, u64)> = Vec::new();
    let mut files: Vec<(String, u64)> = Vec::new();
    let mut i: usize = 0;
    proof {
        assert(all.take(0) =~= Seq::empty());
        assert(row_views(dirs@) =~= Seq::empty());
        assert(row_views(files@) =~= Seq::empty());
    }
    while i < fields.len()
        invariant
            i <= fields.len(),
            all == all_fields(fields@),
            row_views(dirs@) == listed_dirs(all.take(i as int), show_all),
            row_views(files@) == listed_files(all.take(i as int), show_all),
        decreases fields.len() - i,
    {
        let kind = fields[i].0;
        let size = fields[i].1;
        let name = fields[i].2.as_str();
        let ghost old_dirs = dirs@;
        let ghost old_files = files@;
        proof {
            assert(all.take(i + 1).drop_last() =~= all.take(i as int));
            assert(all.take(i + 1).last() == (kind, size, name@));
        }
        i = i + 1;
        if same_text(name, ".") || same_text(name, "..") || (!show_all && is_noise_dir(name)) {
            continue;
        }
        if kind == 'd' {
            dirs.push((name.to_owned(), size));
            assert(row_views(dirs@) =~= row_views(old_dirs).push((name@, size)));
        } else if kind == '-' || kind == 'l' {
            files.push((name.to_owned(), size));
            assert(row_views(files@) =~= row_views(old_files).push((name@, size)));
        }
    }
    assert(all.take(all.len() as int) =~= all);
    render_listing(&dirs, &files)
}

/// How many lines a listing has: one for each directory and file, or one that
/// says that there are none.
pub open spec fn entry_lines(dirs: Seq<(Seq<char>, u64)>, files: Seq<(Seq<char>, u64)>) -> nat {
    if dirs.len() + files.len() == 0 {
        1
    } else {
        dirs.len() + files.len()
    }
}

proof fn lemma_listed_names(fields: Seq<(char, u64, Seq<char>)>, show_all: bool)
    requires
        forall|i: int| 0 <= i < fields.len() ==> !(#[trigger] fields[i]).2.contains('\n'),
    ensures
        names_are_lines(listed_dirs(fields, show_all)),
        names_are_lines(listed_files(fields, show_all)),
    decreases fields.len(),
{
    if fields.len() > 0 {
        let front = fields.drop_last();
        assert forall|i: int| 0 <= i < front.len() implies !(#[trigger] front[i]).2.contains('\n') by {
            assert(front[i] == fields[i]);
        }
        lemma_listed_names(front, show_all);
        assert(!fields[fields.len() - 1].2.contains('\n'));
    }
}

/// Only what may be listed is listed: neither `.` nor `..`, and no noise, unless
/// all files are asked for.
pub proof fn noise_is_left_out(fields: Seq<(char, u64, Seq<char>)>, show_all: bool)
    ensures
        forall|i: int|
            0 <= i < listed_dirs(fields, show_all).len() ==> is_listed(
                (#[trigger] listed_dirs(fields, show_all)[i]).0,
                show_all,
            ),
        forall|i: int|
            0 <= i < listed_files(fields, show_all).len() ==> is_listed(
                (#[trigger] listed_files(fields, show_all)[i]).0,
                show_all,
            ),
    decreases fields.len(),
{
    if fields.len() > 0 {
        let front = fields.drop_last();
        let (dirs, files) = (listed_dirs(front, show_all), listed_files(front, show_all));
        noise_is_left_out(front, show_all);
        let (all_dirs, all_files) = (listed_dirs(fields, show_all), listed_files(fields, show_all));
        assert forall|i: int| 0 <= i < all_dirs.len() implies is_listed(
            (#[trigger] all_dirs[i]).0,
            show_all,
        ) by {
            if i < dirs.len() {
                assert(all_dirs[i] == dirs[i]);
            }
        }
        assert forall|i: int| 0 <= i < all_files.len() implies is_listed(
            (#[trigger] all_files[i]).0,
            show_all,
        ) by {
            if i < files.len() {
                assert(all_files[i] == files[i]);
            }
        }
    }
}

/// Whether a row is no noise.
pub open spec fn no_noise() -> spec_fn((Seq<char>, u64)) -> bool {
    |row: (Seq<char>, u64)| !is_noise(row.0)
}

/// Asking for all files adds the noise, and changes nothing else.
pub proof fn show_all_adds_noise_only(fields: Seq<(char, u64, Seq<char>)>)
    ensures
        listed_dirs(fields, false) == listed_dirs(fields, true).filter(no_noise()),
        listed_files(fields, false) == listed_files(fields, true).filter(no_noise()),
    decreases fields.len(),
{
    if fields.len() == 0 {
        reveal(Seq::filter);
        assert(listed_dirs(fields, true).filter(no_noise()) =~= Seq::empty());
        assert(listed_files(fields, true).filter(no_noise()) =~= Seq::empty());
    } else {
        let front = fields.drop_last();
        let (kind, size, name) = fields.last();
        show_all_adds_noise_only(front);
        listed_dirs(front, true).lemma_filter_push((name, size), no_noise());
        listed_files(front, true).lemma_filter_push((name, size), no_noise());
    }
}

/// The directories that `ls -la` printed and that are listed.
pub open spec fn output_dirs(raw: Seq<char>, show_all: bool) -> Seq<(Seq<char>, u64)> {
    listed_dirs(parsed_lines(lines(raw)), show_all)
}

/// The files that `ls -la` printed and that are listed.
pub open spec fn output_files(raw: Seq<char>, show_all: bool) -> Seq<(Seq<char>, u64)> {
    listed_files(parsed_lines(lines(raw)), show_all)
}

/// Compacts what `ls -la` printed. The summary comes apart, so that it can be
/// kept back where the output is piped.
pub fn compact_ls(raw: &str, show_all: bool) -> (r: (String, String))
    ensures
        r.0@ == entries_text(output_dirs(raw@, show_all), output_files(raw@, show_all)),
        r.1@ == summary_text(output_dirs(raw@, show_all), output_files(raw@, show_all)),
        line_feeds(r.0@) == entry_lines(output_dirs(raw@, show_all), output_files(raw@, show_all)),
{
    let fields = parse_ls_output(raw);
    proof {
        let all = all_fields(fields@);
        assert forall|i: int| 0 <= i < all.len() implies !(#[trigger] all[i]).2.contains('\n') by {
            assert(!fields@[i].2@.contains('\n'));
        }
        lemma_listed_names(all, show_all);
        one_line_per_entry(listed_dirs(all, show_all), listed_files(all, show_all));
    }
    compact_fields(&fields, show_all)
}

/// What of a listing is shown: the summary on a terminal only.
pub open spec fn visible(entries: Seq<char>, summary: Seq<char>, is_tty: bool) -> Seq<char> {
    if is_tty {
        entries + summary
    } else {
        entries
    }
}

/// Chooses what of a listing is shown: the summary on a terminal only.
pub fn visible_output(entries: String, summary: &str, is_tty: bool) -> (r: String)
    ensures
        r@ == visible(entries@, summary@, is_tty),
{
    let mut out = entries;
    if is_tty {
        out.append(summary);
    }
    out
}

/// What is shown of what `ls -la` printed.
pub fn filter_ls_output(raw: &str, show_all: bool, is_tty: bool) -> (r: String)
    ensures
        r@ == visible(
            entries_text(output_dirs(raw@, show_all), output_files(raw@, show_all)),
            summary_text(output_dirs(raw@, show_all), output_files(raw@, show_all)),
            is_tty,
        ),
{
    let (entries, summary) = compact_ls(raw, show_all);
    visible_output(entries, summary.as_str(), is_tty)
}

/// By how many percent a text of `raw_len` bytes shrank to `filtered_len`.
pub open spec fn reduction(raw_len: nat, filtered_len: nat) -> int {
    if raw_len == 0 {
        0
    } else {
        100 - (filtered_len * 100) / raw_len
    }
}

/// Says by how much a listing shrank.
pub fn reduction_note(raw_len: usize, filtered_len: usize) -> (r: String)
    requires
        raw_len > 0 ==> filtered_len * 100 <= usize::MAX,
        reduction(raw_len as nat, filtered_len as nat) >= 0,
    ensures
        r@ == "Chars: "@ + decimal(raw_len as nat) + " → "@ + decimal(filtered_len as nat) + " ("@
            + decimal(reduction(raw_len as nat, filtered_len as nat) as nat) + "% reduction)"@,
{
    let percent: usize = if raw_len > 0 {
        100 - (filtered_len * 100 / raw_len)
    } else {
        0
    };
    let mut out = "Chars: ".to_owned();
    push_decimal(&mut out, raw_len as u64);
    out.append(" → ");
    push_decimal(&mut out, filtered_len as u64);
    out.append(" (");
    push_decimal(&mut out, percent as u64);
    out.append("% reduction)");
    out
}

/// How `ls` is run for a request.
#[derive(Debug)]
pub struct LsCommand {
    /// The arguments that `ls` gets.
    pub args: Vec<String>,
    /// The arguments under which the run is recorded.
    pub label: String,
    /// Whether all files are listed.
    pub show_all: bool,
}

/// The arguments that `ls` gets.
pub open spec fn command_args(
    recursive: bool,
    flags: Seq<Seq<char>>,
    paths: Seq<Seq<char>>,
) -> Seq<Seq<char>> {
    let head = if recursive {
        seq!["-la"@, "-R"@]
    } else {
        seq!["-la"@]
    };
    head + flags + if paths.len() == 0 {
        seq!["."@]
    } else {
        paths
    }
}

fn push_all(out: &mut Vec<String>, more: &Vec<String>)
    ensures
        views(final(out)@) == views(old(out)@) + views(more@),
{
    let ghost start = views(out@);
    let ghost all = views(more@);
    let mut i: usize = 0;
    assert(start + all.take(0) =~= start);
    while i < more.len()
        invariant
            i <= more.len(),
            all == views(more@),
            views(out@) == start + all.take(i as int),
        decreases more.len() - i,
    {
        let ghost before = out@;
        out.push(more[i].clone());
        proof {
            let next = all[i as int];
            assert(views(out@) =~= views(before).push(next));
            assert((start + all.take(i as int)).push(next) =~= start + all.take(i + 1));
        }
        i = i + 1;
    }
    assert(all.take(all.len() as int) =~= all);
}

fn single(s: &str) -> (r: Vec<String>)
    ensures
        views(r@) == seq![s@],
{
    let mut v: Vec<String> = Vec::new();
    v.push(s.to_owned());
    assert(views(v@) =~= seq![s@]);
    v
}

/// Decides how `ls` is run: always with `-la`, and on the directory at hand
/// where the arguments name no path.
pub fn run(args: &[String]) -> (r: LsCommand)
    ensures
        views(r.args@) == command_args(
            any_sets_recursive(ls_options(views(args@))),
            forwarded_flags(ls_options(views(args@))),
            ls_paths(views(args@)),
        ),
        r.label@ == "-la "@ + if ls_paths(views(args@)).len() == 0 {
            "."@
        } else {
            join(ls_paths(views(args@)), " "@)
        },
        r.show_all == any_sets_all(ls_options(views(args@))),
{
    let request = normalize_ls_args(args);
    let mut out = single("-la");
    if request.recursive {
        let r_flag = single("-R");
        push_all(&mut out, &r_flag);
        assert(views(out@) =~= seq!["-la"@, "-R"@]);
    }
    push_all(&mut out, &request.passthrough_flags);
    let mut label = "-la ".to_owned();
    assert(views(request.paths@).len() == request.paths@.len());
    if request.paths.len() == 0 {
        let here = single(".");
        push_all(&mut out, &here);
        label.append(".");
    } else {
        push_all(&mut out, &request.paths);
        let paths = joined(request.paths.as_slice(), " ");
        label.append(paths.as_str());
    }
    LsCommand { args: out, label, show_all: request.show_all }
}

proof fn lemma_options_len(args: Seq<Seq<char>>)
    ensures
        options_len(args) <= args.len(),
    decreases args.len(),
{
    if args.len() > 0 {
        lemma_options_len(args.drop_first());
    }
}

proof fn lemma_options_then(options: Seq<Seq<char>>, rest: Seq<Seq<char>>)
    requires
        forall|i: int|
            0 <= i < options.len() ==> is_option(#[trigger] options[i]) && options[i] != "--"@,
        rest.len() > 0 ==> rest[0] == "--"@ || !is_option(rest[0]),
    ensures
        options_len(options + rest) == options.len(),
    decreases options.len(),
{
    let all = options + rest;
    if options.len() > 0 {
        let tail = options.drop_first();
        assert(all.drop_first() =~= tail + rest);
        assert forall|i: int| 0 <= i < tail.len() implies is_option(#[trigger] tail[i]) && tail[i]
            != "--"@ by {
            assert(tail[i] == options[i + 1]);
        }
        lemma_options_then(tail, rest);
        assert(all[0] == options[0]);
    } else {
        assert(all =~= rest);
    }
}

/// All that follows `--` is a path, whatever it looks like.
pub proof fn paths_follow_the_separator(options: Seq<Seq<char>>, paths: Seq<Seq<char>>)
    requires
        forall|i: int|
            0 <= i < options.len() ==> is_option(#[trigger] options[i]) && options[i] != "--"@,
    ensures
        ls_paths(options + seq!["--"@] + paths) == paths,
        ls_options(options + seq!["--"@] + paths) == options,
{
    let rest = seq!["--"@] + paths;
    let all = options + seq!["--"@] + paths;
    assert(all =~= options + rest);
    lemma_options_then(options, rest);
    assert(all.take(options.len() as int) =~= options);
    assert(all.skip(options.len() as int) =~= rest);
    assert(rest.drop_first() =~= paths);
}

/// All that follows the first path is a path, whatever it looks like.
pub proof fn paths_follow_the_first_path(options: Seq<Seq<char>>, paths: Seq<Seq<char>>)
    requires
        forall|i: int|
            0 <= i < options.len() ==> is_option(#[trigger] options[i]) && options[i] != "--"@,
        paths.len() > 0,
        !is_option(paths[0]),
    ensures
        ls_paths(options + paths) == paths,
        ls_options(options + paths) == options,
{
    lemma_options_then(options, paths);
    assert((options + paths).take(options.len() as int) =~= options);
    assert((options + paths).skip(options.len() as int) =~= paths);
    reveal_strlit("--");
    if paths[0] == "--"@ {
        assert("--"@ =~= paths[0].subrange(0, 2));
    }
}

/// The paths are the end of the arguments.
pub proof fn ls_paths_end_the_arguments(args: Seq<Seq<char>>)
    ensures
        ls_paths(args).is_suffix_of(args),
{
    lemma_options_len(args);
    let p = ls_paths(args);
    assert(p =~= args.subrange(args.len() - p.len(), args.len() as int));
}

} // verus!
