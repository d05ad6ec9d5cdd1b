use rtk::ls::{normalize_ls_args, LsRequest};
use rtk::native_ls::{
    collect_dir_entries, display_entry_name, format_compact_entries, is_hidden_entry, ls_targets,
    render_windows_ls, should_skip_entry, ChildRead, FoundEntry, LsEntry, TargetRead,
};
use rtk::prefix::PathStyle::{Unix, Windows};

fn request(args: &[&str]) -> LsRequest {
    let args: Vec<String> = args.iter().map(|a| a.to_string()).collect();
    normalize_ls_args(&args)
}

fn entry(name: &str, is_dir: bool, size: u64) -> LsEntry {
    LsEntry { name: name.to_string(), is_dir, size }
}

fn found(path: &str, is_dir: bool, size: u64) -> ChildRead {
    ChildRead::Found(FoundEntry { path: path.to_string(), is_dir, size, hidden: false })
}

fn file(size: u64) -> TargetRead {
    TargetRead::File { size, hidden: false }
}

#[test]
fn entries_come_in_the_order_of_their_names() {
    let (listing, summary) = format_compact_entries(&[
        entry("b.txt", false, 2000),
        entry("z", true, 0),
        entry("B.txt", false, 1),
        entry("a", true, 0),
        entry("\u{e9}.md", false, 3),
        entry("a.txt", false, 2_097_152),
        entry("\u{ffff}", false, 4),
        entry("\u{10000}", false, 5),
    ]);
    assert_eq!(
        listing,
        "a/\nz/\nB.txt  1B\na.txt  2.0M\nb.txt  2.0K\n\u{e9}.md  3B\n\u{ffff}  4B\n\u{10000}  5B\n"
    );
    assert_eq!(summary, "\nSummary: 6 files, 2 dirs (3 .txt, 2 no ext, 1 .md)\n");
}

#[test]
fn rows_of_one_name_stay_in_order() {
    let (listing, _) = format_compact_entries(&[
        entry("b", false, 1),
        entry("a", false, 2),
        entry("b", false, 3),
        entry("a", false, 4),
        entry("a", false, 5),
    ]);
    assert_eq!(listing, "a  2B\na  4B\na  5B\nb  1B\nb  3B\n");
}

#[test]
fn five_extensions_are_shown() {
    let names = ["a.1", "b.2", "c.3", "d.4", "e.5", "f.6", "g.6", "h.7"];
    let entries: Vec<LsEntry> = names.iter().map(|n| entry(n, false, 1)).collect();
    let (_, summary) = format_compact_entries(&entries);
    assert_eq!(summary, "\nSummary: 8 files, 0 dirs (2 .6, 1 .1, 1 .2, 1 .3, 1 .4, +2 more)\n");
}

#[test]
fn directories_alone_have_no_extensions() {
    let (listing, summary) = format_compact_entries(&[entry("a.b", true, 1)]);
    assert_eq!(listing, "a.b/\n");
    assert_eq!(summary, "\nSummary: 0 files, 1 dirs\n");
    let (listing, summary) = format_compact_entries(&[]);
    assert_eq!(listing, "(empty)\n");
    assert_eq!(summary, "");
}

#[test]
fn names_of_entries() {
    assert_eq!(display_entry_name("src", "src/a.rs", false, false, Unix), "a.rs");
    assert_eq!(display_entry_name("src", "src/a.rs", false, true, Unix), "src/a.rs");
    assert_eq!(display_entry_name("src", "src/x/a.rs", true, false, Unix), "x/a.rs");
    assert_eq!(display_entry_name("src/", "src/x/a.rs", true, true, Unix), "src//x/a.rs");
    assert_eq!(display_entry_name(".", "./x/a.rs", true, true, Unix), "x/a.rs");
    assert_eq!(display_entry_name("src", "src", true, true, Unix), "src");
    assert_eq!(display_entry_name("src", "other/a", true, false, Unix), "other/a");
    assert_eq!(display_entry_name("d", "d/x\\y", false, false, Unix), "x/y");
    assert_eq!(display_entry_name("d", "d/..", false, false, Unix), "d/..");
}

#[test]
fn what_is_left_out() {
    assert!(should_skip_entry("x/.git", true, false, false, Unix));
    assert!(should_skip_entry("node_modules", true, false, false, Unix));
    assert!(!should_skip_entry("node_modules", false, false, false, Unix));
    assert!(should_skip_entry(".env", false, false, false, Unix));
    assert!(should_skip_entry("plain", false, true, false, Unix));
    assert!(!should_skip_entry("x.y", false, false, false, Unix));
    assert!(!should_skip_entry(".git", true, true, true, Unix));
    assert!(!should_skip_entry("..", true, false, false, Unix));
    assert!(is_hidden_entry(".x", false));
    assert!(is_hidden_entry("x", true));
    assert!(!is_hidden_entry("", false));
}

fn ok(text: &str) -> Result<String, String> {
    Ok(text.to_string())
}

fn failed(text: &str) -> Result<String, String> {
    Err(text.to_string())
}

#[test]
fn a_directory_is_rendered() {
    let reads = vec![TargetRead::Directory(vec![
        found("src/main.rs", false, 100),
        found("src/target", true, 64),
        found("src/bin", true, 64),
        found("src/.hidden", false, 1),
    ])];
    assert_eq!(render_windows_ls(&request(&["src"]), &reads, Unix, false), ok("bin/\nmain.rs  100B\n"));
    assert_eq!(
        render_windows_ls(&request(&["src"]), &reads, Unix, true),
        ok("bin/\nmain.rs  100B\n\nSummary: 1 files, 1 dirs (1 .rs)\n")
    );
    assert_eq!(
        render_windows_ls(&request(&["-a", "src"]), &reads, Unix, false),
        ok("bin/\ntarget/\n.hidden  1B\nmain.rs  100B\n")
    );
}

#[test]
fn several_targets_are_rendered_with_their_paths() {
    let reads = vec![file(7), TargetRead::Directory(vec![found("a/f", false, 1)]), file(7)];
    let r = request(&["b.txt", "a", ".env"]);
    assert_eq!(render_windows_ls(&r, &reads, Unix, false), ok("a/f  1B\nb.txt  7B\n"));
    assert_eq!(ls_targets(&r), vec!["b.txt", "a", ".env"]);
    let hidden = vec![TargetRead::File { size: 1, hidden: true }];
    assert_eq!(render_windows_ls(&request(&["f"]), &hidden, Windows, true), ok("(empty)\n"));
}

#[test]
fn no_path_lists_the_directory_at_hand() {
    let reads = || {
        vec![TargetRead::Directory(vec![found("./b", false, 1), found("./a.rs", false, 2)])]
    };
    for flags in [&[][..], &["-a"], &["-R"], &["-aRt"]] {
        let none = request(flags);
        let dot = request(&[flags, &["."]].concat());
        assert_eq!(ls_targets(&none), ls_targets(&dot));
        assert_eq!(ls_targets(&none), vec!["."]);
        for is_tty in [false, true] {
            let listed = render_windows_ls(&none, &reads(), Unix, is_tty);
            assert_eq!(listed, render_windows_ls(&dot, &reads(), Unix, is_tty));
            assert!(listed.unwrap().starts_with("a.rs  2B\nb  1B\n"));
        }
    }
    let unread = vec![TargetRead::NoMetadata];
    assert_eq!(
        render_windows_ls(&request(&[]), &unread, Unix, false),
        failed("failed to read metadata for .")
    );
}

#[test]
fn a_failed_read_gives_no_listing() {
    let r = request(&["a", "b", "c"]);
    let render = |reads: Vec<TargetRead>| render_windows_ls(&r, &reads, Unix, false);
    let no_metadata = failed("failed to read metadata for b");
    assert_eq!(render(vec![file(1), TargetRead::NoMetadata, file(1)]), no_metadata);
    assert_eq!(render(vec![file(1), TargetRead::NoMetadata]), no_metadata);
    assert_eq!(
        render(vec![TargetRead::Directory(vec![ChildRead::Unlisted]), TargetRead::NoMetadata]),
        failed("failed to read a")
    );
    let broken = || {
        vec![TargetRead::Directory(vec![
            found("a/f", false, 1),
            ChildRead::NoMetadata("a/g".to_string()),
            ChildRead::Unlisted,
        ])]
    };
    assert_eq!(render(broken()), failed("failed to read metadata for a/g"));
    let deep = request(&["-R", "a"]);
    assert_eq!(
        render_windows_ls(&deep, &broken(), Unix, true),
        failed("failed to read metadata for a/g")
    );
    let walked = vec![TargetRead::Directory(vec![found("a/f", false, 1), ChildRead::Unlisted])];
    assert_eq!(render_windows_ls(&deep, &walked, Unix, true), failed("failed to walk a"));
}

#[test]
fn entries_are_collected_up_to_the_failure() {
    let r = request(&["a"]);
    let mut entries = vec![entry("x", false, 9)];
    let children = vec![found("a/f", false, 1), ChildRead::Unlisted, found("a/g", false, 1)];
    let result = collect_dir_entries("a", &children, &r, false, Unix, &mut entries);
    assert_eq!(result, Err("failed to read a".to_string()));
    let names: Vec<&str> = entries.iter().map(|e| e.name.as_str()).collect();
    assert_eq!(names, vec!["x", "f"]);
}

#[test]
fn a_drive_is_rendered() {
    let listed = |paths: [&str; 2]| {
        vec![TargetRead::Directory(paths.iter().map(|p| found(p, false, 1)).collect())]
    };
    let bare = listed(["C:b.txt", "C:.env"]);
    assert_eq!(render_windows_ls(&request(&["C:"]), &bare, Windows, false), ok("b.txt  1B\n"));
    let deep = listed(["C:d\\b.txt", "C:d\\.env"]);
    assert_eq!(
        render_windows_ls(&request(&["-R", "C:"]), &deep, Windows, false),
        ok("d/b.txt  1B\n")
    );
    let rooted = listed(["C:\\b.txt", "C:\\.env"]);
    assert_eq!(render_windows_ls(&request(&["C:\\"]), &rooted, Windows, false), ok("b.txt  1B\n"));
    assert!(should_skip_entry("C:.env", false, false, false, Windows));
    assert!(should_skip_entry("C:target", true, false, false, Windows));
    assert!(!should_skip_entry("C:.env", false, false, false, Unix));
    assert_eq!(display_entry_name("C:", "C:f", true, true, Windows), "C:/f");
    assert_eq!(display_entry_name("C:", "C:f", false, true, Windows), "C:f");
}
