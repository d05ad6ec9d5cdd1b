use rtk::wc_cmd::{
    count_text, count_wc_stats, detect_mode, extract_wc_paths, filter_wc_output,
    find_common_prefix, format_multi_line, format_single_line, format_single_wc_stats,
    render_wc_rows, render_windows_wc, run, strip_prefix, total_stats,
    windows_wc_unavailable_message, WcMode, WcStats,
};

#[test]
fn test_single_file_full() {
    let raw = "      30      96     978 scripts/find_duplicate_attrs.py\n";
    let result = filter_wc_output(raw, &WcMode::Full);
    assert_eq!(result, "30L 96W 978B");
}

#[test]
fn test_single_file_lines_only() {
    let raw = "      30 scripts/find_duplicate_attrs.py\n";
    let result = filter_wc_output(raw, &WcMode::Lines);
    assert_eq!(result, "30");
}

#[test]
fn test_single_file_words_only() {
    let raw = "      96 scripts/find_duplicate_attrs.py\n";
    let result = filter_wc_output(raw, &WcMode::Words);
    assert_eq!(result, "96");
}

#[test]
fn test_stdin_full() {
    let raw = "      30      96     978\n";
    let result = filter_wc_output(raw, &WcMode::Full);
    assert_eq!(result, "30L 96W 978B");
}

#[test]
fn test_stdin_lines() {
    let raw = "      30\n";
    let result = filter_wc_output(raw, &WcMode::Lines);
    assert_eq!(result, "30");
}

#[test]
fn test_multi_file_lines() {
    let raw = "      30 src/main.rs\n      50 src/lib.rs\n      80 total\n";
    let result = filter_wc_output(raw, &WcMode::Lines);
    assert_eq!(result, "30 main.rs\n50 lib.rs\nΣ 80");
}

#[test]
fn test_multi_file_full() {
    let raw = "      30      96     978 src/main.rs\n      50     120    1500 src/lib.rs\n      80     216    2478 total\n";
    let result = filter_wc_output(raw, &WcMode::Full);
    assert_eq!(
        result,
        "30L 96W 978B main.rs\n50L 120W 1500B lib.rs\nΣ 80L 216W 2478B"
    );
}

#[test]
fn test_detect_mode_full() {
    let args: Vec<String> = vec!["file.py".into()];
    assert_eq!(detect_mode(&args), WcMode::Full);
}

#[test]
fn test_detect_mode_lines() {
    let args: Vec<String> = vec!["-l".into(), "file.py".into()];
    assert_eq!(detect_mode(&args), WcMode::Lines);
}

#[test]
fn test_detect_mode_mixed() {
    let args: Vec<String> = vec!["-lw".into(), "file.py".into()];
    assert_eq!(detect_mode(&args), WcMode::Mixed);
}

#[test]
fn test_detect_mode_separate_flags() {
    let args: Vec<String> = vec!["-l".into(), "-w".into(), "file.py".into()];
    assert_eq!(detect_mode(&args), WcMode::Mixed);
}

#[test]
fn test_common_prefix() {
    let paths = vec!["src/main.rs", "src/lib.rs", "src/utils.rs"];
    assert_eq!(find_common_prefix(&paths), "src/");
}

#[test]
fn test_no_common_prefix() {
    let paths = vec!["main.rs", "lib.rs"];
    assert_eq!(find_common_prefix(&paths), "");
}

#[test]
fn test_deep_common_prefix() {
    let paths = vec!["src/cmd/wc.rs", "src/cmd/ls.rs"];
    assert_eq!(find_common_prefix(&paths), "src/cmd/");
}

#[test]
fn test_empty() {
    let raw = "";
    let result = filter_wc_output(raw, &WcMode::Full);
    assert_eq!(result, "");
}

#[test]
fn test_windows_wc_unavailable_message_mentions_native_fallback() {
    let message = windows_wc_unavailable_message();
    assert!(message.contains("native Windows counting"));
    assert!(message.contains("RTK compression"));
}

fn strings(args: &[&str]) -> Vec<String> {
    args.iter().map(|a| a.to_string()).collect()
}

#[test]
fn combined_flags_ask_for_what_separate_flags_ask_for() {
    assert_eq!(detect_mode(&strings(&["-lc", "f"])), WcMode::Mixed);
    assert_eq!(detect_mode(&strings(&["-l", "-c", "f"])), WcMode::Mixed);
    assert_eq!(detect_mode(&strings(&["-ll"])), WcMode::Mixed);
    assert_eq!(detect_mode(&strings(&["-w"])), WcMode::Words);
    assert_eq!(detect_mode(&strings(&["f", "-c"])), WcMode::Bytes);
    assert_eq!(detect_mode(&strings(&["-m"])), WcMode::Chars);
    assert_eq!(detect_mode(&strings(&["-x", "-", "--"])), WcMode::Full);
    assert_eq!(detect_mode(&strings(&["--lines"])), WcMode::Lines);
}

#[test]
fn paths_are_the_end_of_the_arguments() {
    assert_eq!(extract_wc_paths(&strings(&["-l", "a", "-w", "--", "b"])), vec!["a", "-w", "--", "b"]);
    assert_eq!(extract_wc_paths(&strings(&["-l", "--", "-w", "b"])), vec!["-w", "b"]);
    assert_eq!(extract_wc_paths(&strings(&["-l", "-"])), Vec::<String>::new());
    assert_eq!(extract_wc_paths(&strings(&["", "-l"])), vec!["", "-l"]);
}

#[test]
fn counts_of_bytes_and_their_text() {
    let s = count_wc_stats(b"one\ntwo\nthree\n");
    assert_eq!((s.lines, s.words, s.bytes, s.chars), (3, 3, 14, 14));
    let s = count_wc_stats("h\u{e9}llo w\u{f6}rld".as_bytes());
    assert_eq!((s.lines, s.words, s.bytes, s.chars), (0, 2, 13, 11));
    // An invalid byte counts as one character.
    let s = count_wc_stats(b"a\xffb c\n");
    assert_eq!((s.lines, s.words, s.bytes, s.chars), (1, 2, 6, 6));
    // So does a sequence that is cut short.
    let s = count_wc_stats(b"\xe2\x82");
    assert_eq!((s.lines, s.words, s.bytes, s.chars), (0, 1, 2, 1));
    assert_eq!(count_wc_stats(b""), WcStats::default());
    // No-break spaces part words too.
    let s = count_text(b"xx", "a\u{a0}b\u{2003}c\u{200b}d");
    assert_eq!((s.lines, s.words, s.bytes, s.chars), (0, 3, 2, 7));
}

#[test]
fn counts_are_written_in_the_columns_of_the_mode() {
    let s = WcStats { lines: 1, words: 20, bytes: 300, chars: 4000 };
    assert_eq!(format_single_wc_stats(s, &WcMode::Lines), "1");
    assert_eq!(format_single_wc_stats(s, &WcMode::Words), "20");
    assert_eq!(format_single_wc_stats(s, &WcMode::Bytes), "300");
    assert_eq!(format_single_wc_stats(s, &WcMode::Chars), "4000");
    assert_eq!(format_single_wc_stats(s, &WcMode::Full), "1L 20W 300B");
    assert_eq!(format_single_wc_stats(s, &WcMode::Mixed), "1 20 300 4000");
}

#[test]
fn test_windows_wc_fallback_counts_lines() {
    let args = strings(&["-l", "some/file"]);
    let result = render_windows_wc(&args, &vec![Some(b"one\ntwo\nthree\n".to_vec())]);
    assert_eq!(result, Ok("3".to_string()));
}

#[test]
fn native_count_of_several_files() {
    let args = strings(&["a.txt", "b.txt"]);
    let contents = vec![Some(b"one\ntwo\n".to_vec()), Some(b"three four\n".to_vec())];
    assert_eq!(
        render_windows_wc(&args, &contents).unwrap(),
        "2L 2W 8B a.txt\n1L 2W 11B b.txt\nΣ 3L 4W 19B"
    );
}

#[test]
fn native_count_without_a_path_fails() {
    let result = render_windows_wc(&strings(&["-l"]), &Vec::new());
    assert_eq!(result, Err(windows_wc_unavailable_message().to_string()));
}

#[test]
fn totals_are_sums() {
    let a = WcStats { lines: 1, words: 2, bytes: 3, chars: 4 };
    let b = WcStats { lines: 10, words: 20, bytes: 30, chars: 40 };
    assert_eq!(total_stats(&[a, b]), WcStats { lines: 11, words: 22, bytes: 33, chars: 44 });
    assert_eq!(
        render_wc_rows(&[a, b], &strings(&["x", "y"]), &WcMode::Mixed),
        "1 2 3 4 x\n10 20 30 40 y\nΣ 11 22 33 44"
    );
}

#[test]
fn single_lines_in_all_modes() {
    assert_eq!(format_single_line("  3  7  a b", &WcMode::Mixed), "3 7 a");
    assert_eq!(format_single_line("  3  7 ", &WcMode::Mixed), "3 7");
    assert_eq!(format_single_line("  3 ", &WcMode::Mixed), "3");
    assert_eq!(format_single_line(" 3   7 ", &WcMode::Full), "3   7");
    assert_eq!(format_single_line("", &WcMode::Bytes), "");
    assert_eq!(format_single_line("+5 7", &WcMode::Mixed), "+5 7");
    // One more than the largest number is no count.
    assert_eq!(format_single_line("1 18446744073709551615", &WcMode::Mixed), "1 18446744073709551615");
    assert_eq!(format_single_line("1 18446744073709551616", &WcMode::Mixed), "1");
}

#[test]
fn tables_in_all_modes() {
    assert_eq!(
        format_multi_line(&["1 2 src/a", "3 4 src/b", "", "4 6 total"], &WcMode::Mixed),
        "1 2 a\n3 4 b\nΣ 4 6"
    );
    assert_eq!(format_multi_line(&["1 2", "x"], &WcMode::Mixed), "1 2\nx");
    assert_eq!(
        format_multi_line(&["1 2 3 d/a", "1 2", "7 total"], &WcMode::Full),
        "1L 2W 3B d/a\n1 2\nΣ 7L totalW 0B"
    );
    assert_eq!(format_multi_line(&["1 a/b/c", "2 a/b/d"], &WcMode::Chars), "1 c\n2 d");
}

#[test]
fn the_common_prefix_is_the_longest_shared_directory() {
    assert_eq!(find_common_prefix(&["a/b/c", "a/bc/d"]), "a/");
    assert_eq!(find_common_prefix(&["a/b/c"]), "");
    assert_eq!(find_common_prefix(&[]), "");
    assert_eq!(find_common_prefix(&["/x", "/y"]), "/");
    assert_eq!(find_common_prefix(&["a/b/c", "a/b/c/d", "a/b/"]), "a/b/");
    assert_eq!(find_common_prefix(&["a/b", "c/d"]), "");
    for p in ["a/b/c", "a/bc/d"] {
        assert_eq!(format!("a/{}", strip_prefix(p, "a/")), p);
    }
    assert_eq!(strip_prefix("abc", ""), "abc");
    assert_eq!(strip_prefix("abc", "b"), "abc");
}

#[test]
fn padding_changes_nothing() {
    assert_eq!(filter_wc_output("\n\n  1\t2   3 f \r\n", &WcMode::Full), "1L 2W 3B");
    assert_eq!(filter_wc_output("1 2 3 f", &WcMode::Full), "1L 2W 3B");
    assert_eq!(filter_wc_output(" \n ", &WcMode::Lines), "");
    assert_eq!(filter_wc_output("1 a\r\n2 b\r\n", &WcMode::Lines), "1 a\n2 b");
}

#[test]
fn wc_is_run_with_its_arguments() {
    let c = run(&strings(&["-l", "a b"]));
    assert_eq!(c.args, vec!["-l", "a b"]);
    assert_eq!(c.label, "-l a b");
    assert_eq!(c.mode, WcMode::Lines);
}

#[test]
fn compacted_output_equals_counts() {
    let stats = count_wc_stats(b"one two\nthree\n");
    let lines = [
        (WcMode::Lines, " 2 f.txt\n"),
        (WcMode::Words, " 3 f.txt\n"),
        (WcMode::Bytes, "14 f.txt\n"),
        (WcMode::Chars, "14 f.txt\n"),
        (WcMode::Full, "  2   3  14 f.txt\n"),
    ];
    for (mode, line) in lines {
        assert_eq!(filter_wc_output(line, &mode), format_single_wc_stats(stats, &mode));
    }
}

#[test]
fn line_feeds_are_characters_whatever_surrounds_them() {
    for bytes in [&b"\xff\n\xe2\x82\n\xf0\x9f\n"[..], b"\n\n", b"\xc3\n\xa9", b"a\nb"] {
        let s = count_wc_stats(bytes);
        let text = String::from_utf8_lossy(bytes);
        assert_eq!(s.lines, text.matches('\n').count());
        assert!(s.lines <= s.chars && s.words <= s.chars && s.chars <= s.bytes);
    }
}

#[test]
fn native_count_stops_at_the_first_unread_file() {
    let args = strings(&["-l", "a", "b", "c"]);
    let failed = Err("failed to read b".to_string());
    let read = || Some(b"x\n".to_vec());
    assert_eq!(render_windows_wc(&args, &vec![read(), None, None]), failed);
    assert_eq!(render_windows_wc(&args, &vec![read(), None, read()]), failed);
    // What stands behind it need not be read.
    assert_eq!(render_windows_wc(&args, &vec![read(), None]), failed);
    assert_eq!(
        render_windows_wc(&args, &vec![read(), read(), read()]),
        Ok("1 a\n1 b\n1 c\nΣ 3".to_string())
    );
}
