use rtk::ls::{
    compact_fields, compact_ls, filter_ls_output, normalize_ls_args, parse_dated_line,
    parse_ls_line, reduction_note, run, windows_ls_unavailable_message,
};
use rtk::size::human_size;

#[test]
fn test_compact_basic() {
    let input = "total 48\n\
                 drwxr-xr-x  2 user  staff    64 Jan  1 12:00 .\n\
                 drwxr-xr-x  2 user  staff    64 Jan  1 12:00 ..\n\
                 drwxr-xr-x  2 user  staff    64 Jan  1 12:00 src\n\
                 -rw-r--r--  1 user  staff  1234 Jan  1 12:00 Cargo.toml\n\
                 -rw-r--r--  1 user  staff  5678 Jan  1 12:00 README.md\n";
    let (entries, _summary) = compact_ls(input, false);
    assert!(entries.contains("src/"));
    assert!(entries.contains("Cargo.toml"));
    assert!(entries.contains("README.md"));
    assert!(entries.contains("1.2K")); // 1234 bytes
    assert!(entries.contains("5.5K")); // 5678 bytes
    assert!(!entries.contains("drwx")); // no permissions
    assert!(!entries.contains("staff")); // no group
    assert!(!entries.contains("total")); // no total
    assert!(!entries.contains("\n.\n")); // no . entry
    assert!(!entries.contains("\n..\n")); // no .. entry
}

#[test]
fn test_compact_filters_noise() {
    let input = "total 8\n\
                 drwxr-xr-x  2 user  staff  64 Jan  1 12:00 node_modules\n\
                 drwxr-xr-x  2 user  staff  64 Jan  1 12:00 .git\n\
                 drwxr-xr-x  2 user  staff  64 Jan  1 12:00 target\n\
                 drwxr-xr-x  2 user  staff  64 Jan  1 12:00 src\n\
                 -rw-r--r--  1 user  staff  100 Jan  1 12:00 main.rs\n";
    let (entries, _summary) = compact_ls(input, false);
    assert!(!entries.contains("node_modules"));
    assert!(!entries.contains(".git"));
    assert!(!entries.contains("target"));
    assert!(entries.contains("src/"));
    assert!(entries.contains("main.rs"));
}

#[test]
fn test_compact_show_all() {
    let input = "total 8\n\
                 drwxr-xr-x  2 user  staff  64 Jan  1 12:00 .git\n\
                 drwxr-xr-x  2 user  staff  64 Jan  1 12:00 src\n";
    let (entries, _summary) = compact_ls(input, true);
    assert!(entries.contains(".git/"));
    assert!(entries.contains("src/"));
}

#[test]
fn test_compact_empty() {
    let input = "total 0\n";
    let (entries, summary) = compact_ls(input, false);
    assert_eq!(entries, "(empty)\n");
    assert!(summary.is_empty());
}

#[test]
fn test_compact_summary() {
    let input = "total 48\n\
                 drwxr-xr-x  2 user  staff    64 Jan  1 12:00 src\n\
                 -rw-r--r--  1 user  staff  1234 Jan  1 12:00 main.rs\n\
                 -rw-r--r--  1 user  staff  5678 Jan  1 12:00 lib.rs\n\
                 -rw-r--r--  1 user  staff   100 Jan  1 12:00 Cargo.toml\n";
    let (_entries, summary) = compact_ls(input, false);
    assert!(summary.contains("Summary: 3 files, 1 dirs"));
    assert!(summary.contains(".rs"));
    assert!(summary.contains(".toml"));
}

#[test]
fn test_human_size() {
    assert_eq!(human_size(0), "0B");
    assert_eq!(human_size(500), "500B");
    assert_eq!(human_size(1024), "1.0K");
    assert_eq!(human_size(1234), "1.2K");
    assert_eq!(human_size(1_048_576), "1.0M");
    assert_eq!(human_size(2_500_000), "2.4M");
}

#[test]
fn test_compact_handles_filenames_with_spaces() {
    let input = "total 8\n\
                 -rw-r--r--  1 user  staff  1234 Jan  1 12:00 my file.txt\n";
    let (entries, _summary) = compact_ls(input, false);
    assert!(entries.contains("my file.txt"));
}

#[test]
fn test_compact_symlinks() {
    let input = "total 8\n\
                 lrwxr-xr-x  1 user  staff  10 Jan  1 12:00 link -> target\n";
    let (entries, _summary) = compact_ls(input, false);
    assert!(entries.contains("link -> target"));
}

#[test]
fn test_entries_no_summary() {
    // Entries should never contain the summary line
    let input = "total 48\n\
                 drwxr-xr-x  2 user  staff    64 Jan  1 12:00 src\n\
                 -rw-r--r--  1 user  staff  1234 Jan  1 12:00 main.rs\n";
    let (entries, summary) = compact_ls(input, false);
    assert!(
        !entries.contains("Summary:"),
        "entries must not contain summary"
    );
    assert!(
        summary.contains("Summary:"),
        "summary must contain the icon"
    );
}

#[test]
fn test_pipe_line_count() {
    // Simulates: rtk ls | wc -l
    // Entries should have exactly 1 line per file/dir, no extra blank or summary
    let input = "total 48\n\
                 drwxr-xr-x  2 user  staff    64 Jan  1 12:00 src\n\
                 -rw-r--r--  1 user  staff  1234 Jan  1 12:00 main.rs\n\
                 -rw-r--r--  1 user  staff  5678 Jan  1 12:00 lib.rs\n";
    let (entries, _summary) = compact_ls(input, false);
    let line_count = entries.lines().count();
    assert_eq!(
        line_count, 3,
        "pipe should see exactly 3 lines (1 dir + 2 files), got {}",
        line_count
    );
}

// Names of owners and groups may hold spaces
#[test]
fn test_compact_multiline_group() {
    let input = "total 8\n\
                 -rw-r--r--  1 fjeanne utilisa. du domaine    0 Mar 31 16:18 empty.txt\n\
                 -rw-r--r--  1 fjeanne utilisa. du domaine 1234 Mar 31 16:18 data.json\n";
    let (entries, _summary) = compact_ls(input, false);
    assert!(
        entries.contains("empty.txt"),
        "should contain 'empty.txt', got: {entries}"
    );
    assert!(
        entries.contains("data.json"),
        "should contain 'data.json', got: {entries}"
    );
    assert!(
        !entries.contains("16:18"),
        "time should not leak into filename, got: {entries}"
    );
    assert!(
        entries.contains("0B"),
        "empty.txt should show 0B, got: {entries}"
    );
    assert!(
        entries.contains("1.2K"),
        "data.json should show 1.2K (1234 bytes), got: {entries}"
    );
}

#[test]
fn test_compact_year_format_date() {
    // Some systems show year instead of time for old files
    let input = "total 8\n\
                 -rw-r--r--  1 user staff  5678 Dec 25  2024 archive.tar\n";
    let (entries, _summary) = compact_ls(input, false);
    assert!(
        entries.contains("archive.tar"),
        "should contain filename, got: {entries}"
    );
    assert!(
        entries.contains("5.5K"),
        "should show 5.5K, got: {entries}"
    );
}

#[test]
fn test_parse_ls_line_basic() {
    let (ft, size, name) = parse_ls_line(
        "-rw-r--r--  1 user staff 1234 Jan  1 12:00 file.txt",
    )
    .unwrap();
    assert_eq!(ft, '-');
    assert_eq!(size, 1234);
    assert_eq!(name, "file.txt");
}

#[test]
fn test_parse_ls_line_multiline_group() {
    let (ft, size, name) = parse_ls_line(
        "-rw-r--r--  1 fjeanne utilisa. du domaine 0 Mar 31 16:18 empty.txt",
    )
    .unwrap();
    assert_eq!(ft, '-');
    assert_eq!(size, 0);
    assert_eq!(name, "empty.txt");
}

#[test]
fn test_parse_ls_line_dir_with_space_in_group() {
    let (ft, size, name) = parse_ls_line(
        "drwxr-xr-x  2 fjeanne utilisa. du domaine 64 Mar 31 16:18 my dir",
    )
    .unwrap();
    assert_eq!(ft, 'd');
    assert_eq!(size, 64);
    assert_eq!(name, "my dir");
}

#[test]
fn test_parse_ls_line_symlink() {
    let (ft, size, name) = parse_ls_line(
        "lrwxr-xr-x  1 user staff 10 Jan  1 12:00 link -> target",
    )
    .unwrap();
    assert_eq!(ft, 'l');
    assert_eq!(size, 10);
    assert_eq!(name, "link -> target");
}

#[test]
fn test_parse_ls_line_returns_none_for_total() {
    assert!(parse_ls_line("total 48").is_none());
}

#[test]
fn test_parse_ls_line_year_format() {
    let (ft, size, name) = parse_ls_line(
        "-rw-r--r--  1 user staff 5678 Dec 25  2024 old.tar.gz",
    )
    .unwrap();
    assert_eq!(ft, '-');
    assert_eq!(size, 5678);
    assert_eq!(name, "old.tar.gz");
}

#[test]
fn test_windows_ls_unavailable_message_mentions_windows_alias_support() {
    let message = windows_ls_unavailable_message();
    assert!(message.contains("dir /a"));
    assert!(message.contains("rtk ls"));
}

#[test]
fn test_normalize_ls_args_accepts_powershell_and_cmd_flags() {
    let args = vec![
        "-Force".to_string(),
        "/s".to_string(),
        "src".to_string(),
    ];
    let request = normalize_ls_args(&args);
    assert!(request.show_all);
    assert!(request.recursive);
    assert_eq!(request.paths, vec!["src"]);
}

fn strings(args: &[&str]) -> Vec<String> {
    args.iter().map(|a| a.to_string()).collect()
}

#[test]
fn letters_of_dashed_options() {
    let r = normalize_ls_args(&strings(&["-laRht", "x"]));
    assert!(r.show_all);
    assert!(r.recursive);
    assert_eq!(r.passthrough_flags, vec!["-t"]);
    assert_eq!(r.paths, vec!["x"]);
    let r = normalize_ls_args(&strings(&["-lh1"]));
    assert!(!r.show_all);
    assert!(!r.recursive);
    assert!(r.passthrough_flags.is_empty());
    assert!(r.paths.is_empty());
}

#[test]
fn words_and_slashes() {
    let r = normalize_ls_args(&strings(&["-RECURSE", "/A", "/o", "--color=auto", "--long"]));
    assert!(r.show_all);
    assert!(r.recursive);
    assert_eq!(r.passthrough_flags, vec!["/o", "--color=auto"]);
    let r = normalize_ls_args(&strings(&["-recurse"]));
    assert!(!r.show_all && r.recursive && r.passthrough_flags.is_empty());
    let r = normalize_ls_args(&strings(&["--all", "--recursive", "--human-readable"]));
    assert!(r.show_all && r.recursive && r.passthrough_flags.is_empty());
    let r = normalize_ls_args(&strings(&["/as"]));
    assert!(!r.show_all && !r.recursive);
    assert_eq!(r.passthrough_flags, vec!["/as"]);
}

#[test]
fn all_is_path_behind_the_separator_and_the_first_path() {
    let r = normalize_ls_args(&strings(&["-a", "--", "-R", "--"]));
    assert!(r.show_all && !r.recursive);
    assert_eq!(r.paths, vec!["-R", "--"]);
    let r = normalize_ls_args(&strings(&["src", "-a", "--"]));
    assert!(!r.show_all);
    assert_eq!(r.paths, vec!["src", "-a", "--"]);
    let r = normalize_ls_args(&strings(&["-", "/", ""]));
    assert_eq!(r.paths, vec!["-", "/", ""]);
}

#[test]
fn how_ls_is_run() {
    let c = run(&strings(&["-aRt", "a", "b"]));
    assert_eq!(c.args, vec!["-la", "-R", "-t", "a", "b"]);
    assert_eq!(c.label, "-la a b");
    assert!(c.show_all);
    let c = run(&[]);
    assert_eq!(c.args, vec!["-la", "."]);
    assert_eq!(c.label, "-la .");
    assert!(!c.show_all);
}

#[test]
fn lines_without_enough_words_are_no_files() {
    assert!(parse_ls_line("a b c Jan  1 12:00 f").is_none());
    assert_eq!(parse_ls_line("a b c d Jan  1 12:00 f"), Some(('a', 0, "f".to_string())));
    assert!(parse_dated_line("drwx 1 u g 5 DATE name", 12, 18).is_some());
    assert_eq!(
        parse_dated_line("drwx 1 u g 5 DATE name", 12, 18),
        Some(('d', 5, "name".to_string()))
    );
    assert_eq!(parse_dated_line("drwx 1 u g 5 DATE name", 10, 18), Some(('d', 1, "name".to_string())));
    assert!(parse_dated_line("drwx 1 u g 5 DATE name", 8, 18).is_none());
}

#[test]
fn offsets_are_counted_in_characters() {
    let (kind, size, name) =
        parse_ls_line("-rw-r--r-- 1 jos\u{e9} gr\u{fc}n 7 Mar 31 16:18 na\u{ef}ve \u{2713}.txt").unwrap();
    assert_eq!((kind, size, name.as_str()), ('-', 7, "na\u{ef}ve \u{2713}.txt"));
}

#[test]
fn the_first_date_counts() {
    let (_, _, name) = parse_ls_line("-rw 1 u g 5 Jan  1 12:00 log Feb  2 13:00 x").unwrap();
    assert_eq!(name, "log Feb  2 13:00 x");
}

#[test]
fn listing_of_fields() {
    let field = |k: char, s: u64, n: &str| (k, s, n.to_string());
    let fields = vec![
        field('d', 64, "."),
        field('-', 2048, "b.rs"),
        field('d', 64, "src"),
        field('l', 10, "a -> b.rs"),
        field('c', 1, "null"),
        field('-', 3, "target"),
        field('-', 1, "Makefile"),
    ];
    let (entries, summary) = compact_fields(&fields, false);
    assert_eq!(entries, "src/\nb.rs  2.0K\na -> b.rs  10B\nMakefile  1B\n");
    assert_eq!(summary, "\nSummary: 3 files, 1 dirs (2 .rs, 1 no ext)\n");
    let (entries, _) = compact_fields(&fields, true);
    assert_eq!(entries, "src/\nb.rs  2.0K\na -> b.rs  10B\ntarget  3B\nMakefile  1B\n");
}

#[test]
fn summary_is_shown_on_a_terminal_only() {
    let raw = "-rw 1 u g 5 Jan  1 12:00 f\n";
    assert_eq!(filter_ls_output(raw, false, false), "f  5B\n");
    assert_eq!(filter_ls_output(raw, false, true), "f  5B\n\nSummary: 1 files, 0 dirs (1 no ext)\n");
    assert_eq!(filter_ls_output("", false, true), "(empty)\n");
}

#[test]
fn reduction_in_percent() {
    assert_eq!(reduction_note(200, 50), "Chars: 200 → 50 (75% reduction)");
    assert_eq!(reduction_note(3, 2), "Chars: 3 → 2 (34% reduction)");
    assert_eq!(reduction_note(0, 8), "Chars: 0 → 8 (0% reduction)");
}

#[test]
fn sizes_agree_with_division_of_floats() {
    let mut sizes: Vec<u64> = Vec::new();
    for i in 0..5000u64 {
        sizes.push(i);
        sizes.push(i * 256);
        sizes.push(1_048_576 + i * 52_429);
        sizes.push(1_048_576 + i * 262_144);
        sizes.push((1 << 53) + i * 7);
        sizes.push((1 << 61) + i * 1_000_003);
        sizes.push(u64::MAX - i);
        sizes.push((1 << 53) + (1 << 18) / 5 * i + i % 3);
    }
    for b in sizes {
        let expected = if b >= 1_048_576 {
            format!("{:.1}M", b as f64 / 1_048_576.0)
        } else if b >= 1024 {
            format!("{:.1}K", b as f64 / 1024.0)
        } else {
            format!("{}B", b)
        };
        assert_eq!(human_size(b), expected, "{}", b);
    }
    // Halves go to the even digit.
    assert_eq!(human_size(1280), "1.2K");
    assert_eq!(human_size(1792), "1.8K");
    assert_eq!(human_size(1_048_575), "1024.0K");
}

#[test]
fn the_date_anchors_the_line() {
    let name = |line: &str| parse_ls_line(line).map(|f| f.2);
    // An owner may be called like a month.
    assert_eq!(name("-rw 1 Jan Mar 5 Apr  1 12:00 f"), Some("f".to_string()));
    // The white space behind the date is no part of the name.
    assert_eq!(name("-rw 1 u g 5 Apr  1 12:00 \t f "), Some("f ".to_string()));
    assert_eq!(name("-rw 1 u g 5 Apr  1 12:00 "), Some(String::new()));
    assert_eq!(name("-rw 1 u g 5\u{a0}Apr\u{2003}1\u{3000}2024\u{85}f"), Some("f".to_string()));
    // Digits of other scripts make a date too.
    assert_eq!(name("-rw 1 u g 5 Apr \u{661} 12:00 f"), Some("f".to_string()));
    assert_eq!(name("-rw 1 u g 5 Apr 123 12:00 f"), None);
    assert_eq!(name("-rw 1 u g 5 Apr 1 1:00 f"), None);
    assert_eq!(name("-rw 1 u g 5 apr 1 12:00 f"), None);
    assert_eq!(name("-rw 1 u g 5 Apr 1 12:00"), None);
}

#[test]
fn appended_text_is_appended_to_the_name() {
    let lines = [
        "-rw 1 u g 5 Jan  1 12:00 f",
        "-rw 1 u g 5 Apr \u{661} \u{662}024 na\u{ef}ve",
        "-rw 1 Jan 2 Mar Dec 25  2024 x y",
    ];
    let more = ["", " ", "x", " Feb  2 13:00 y", "\u{a0}", " Jan 1 12:00 "];
    for line in lines {
        let (kind, size, name) = parse_ls_line(line).unwrap();
        for x in more {
            let longer = format!("{}{}", line, x);
            let expected = (kind, size, format!("{}{}", name, x));
            assert_eq!(parse_ls_line(&longer), Some(expected), "{:?}", longer);
        }
    }
}
