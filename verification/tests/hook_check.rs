use rtk::hook_check::{
    binary_hook_registered, check_and_warn, hook_locations, maybe_warn,
    other_integration_installed, other_integration_paths, parse_hook_version, registers_command,
    status, warn_marker_path, HookProbe, HookStatus, ScriptFile, WarnMarker,
};
use rtk::json::{parse_json, Json};
use rtk::prefix::PathStyle::{Unix, Windows};

#[test]
fn test_parse_hook_version_present() {
    let content = "#!/usr/bin/env bash\n# rtk-hook-version: 2\n# some comment\n";
    assert_eq!(parse_hook_version(content), 2);
}

#[test]
fn test_parse_hook_version_missing() {
    let content = "#!/usr/bin/env bash\n# old hook without version\n";
    assert_eq!(parse_hook_version(content), 0);
}

#[test]
fn test_parse_hook_version_future() {
    let content = "#!/usr/bin/env bash\n# rtk-hook-version: 5\n";
    assert_eq!(parse_hook_version(content), 5);
}

#[test]
fn test_parse_hook_version_no_tag() {
    assert_eq!(parse_hook_version("no version here"), 0);
    assert_eq!(parse_hook_version(""), 0);
}

#[test]
fn test_hook_status_enum() {
    assert_ne!(HookStatus::UpToDate, HookStatus::Missing);
    assert_ne!(HookStatus::Outdated, HookStatus::Missing);
    assert_eq!(HookStatus::UpToDate, HookStatus::UpToDate);
    // Clone works
    let s = HookStatus::Missing;
    assert_eq!(s.clone(), HookStatus::Missing);
}

#[test]
fn test_parse_hook_version_powershell_comment() {
    let content = "#!/usr/bin/env pwsh\n# rtk-hook-version: 3\n";
    assert_eq!(parse_hook_version(content), 3);
}

fn probe() -> HookProbe {
    HookProbe {
        tool: "tool".to_string(),
        home_found: true,
        tool_dir_found: true,
        settings: None,
        shell_hook: ScriptFile::Absent,
        powershell_hook: ScriptFile::Absent,
    }
}

fn script(content: &str) -> ScriptFile {
    ScriptFile::Readable(content.to_string())
}

const REGISTERED: &str = r#"{"hooks": {"PreToolUse": [
    {"matcher": "Bash"},
    7,
    {"hooks": [{"type": "command"}, null, {"command": 1}, {"command": "rtk hook tool"}]}
]}}"#;

#[test]
fn test_other_integration_none() {
    let tmp = tempfile::tempdir().expect("tempdir");
    let paths = other_integration_paths(&tmp.path().to_string_lossy(), "tool", Unix);
    let found: Vec<bool> = paths.iter().map(|p| std::path::Path::new(p).exists()).collect();
    assert!(!other_integration_installed(&found));
}

/// Whether an integration is found in `/h`, where only `files` exist.
fn installed_with(files: &[&str]) -> bool {
    let found: Vec<bool> = other_integration_paths("/h", "tool", Unix)
        .iter()
        .map(|p| files.contains(&p.as_str()))
        .collect();
    other_integration_installed(&found)
}

#[test]
fn test_other_integration_opencode() {
    assert!(installed_with(&["/h/.config/opencode/plugins/rtk.ts"]));
}

#[test]
fn test_other_integration_cursor() {
    assert!(installed_with(&["/h/.cursor/hooks/rtk-rewrite.sh"]));
}

#[test]
fn other_integration_powershell() {
    assert!(installed_with(&["/h/.tool/hooks/rtk-rewrite.ps1"]));
}

#[test]
fn test_other_integration_codex() {
    assert!(installed_with(&["/h/.codex/AGENTS.md"]));
}

#[test]
fn test_other_integration_gemini() {
    assert!(installed_with(&["/h/.gemini/hooks/rtk-hook-gemini.sh"]));
}

#[test]
fn test_other_integration_empty_dirs_not_enough() {
    assert!(!installed_with(&["/h/.cursor/hooks", "/h/.codex", "/h/.gemini"]));
}

#[test]
fn test_status_returns_valid_variant() {
    // Skip on machines without a home directory
    let home = match dirs::home_dir() {
        Some(h) => h,
        None => return,
    };
    let places = hook_locations(&home.to_string_lossy(), "cursor", Unix);
    let exists = |p: &str| std::path::Path::new(p).exists();
    let has_hook = home.join(".cursor").join("hooks").join("rtk-rewrite.sh").exists()
        || home.join(".cursor").join("hooks").join("rtk-rewrite.ps1").exists();
    let has_dir = home.join(".cursor").exists();
    // Whatever a script holds, and whether or not it can be read.
    for content in [None, Some(""), Some("# rtk-hook-version: 3")] {
        let script_at = |p: &str| match content {
            _ if !exists(p) => ScriptFile::Absent,
            Some(text) => ScriptFile::Readable(text.to_string()),
            None => ScriptFile::Unreadable,
        };
        let s = status(&HookProbe {
            tool: "cursor".to_string(),
            home_found: true,
            tool_dir_found: exists(&places.tool_dir),
            settings: None,
            shell_hook: script_at(&places.shell_hook),
            powershell_hook: script_at(&places.powershell_hook),
        });
        match (has_hook, has_dir) {
            (true, _) => assert!(
                s == HookStatus::UpToDate || s == HookStatus::Outdated,
                "Expected UpToDate or Outdated when the hook exists, got {:?}",
                s
            ),
            (false, true) => assert_eq!(s, HookStatus::Missing),
            (false, false) => assert_eq!(s, HookStatus::UpToDate),
        }
    }
}

#[test]
fn only_the_first_five_lines_count() {
    assert_eq!(parse_hook_version("\n\n\n\n# rtk-hook-version: 7"), 7);
    assert_eq!(parse_hook_version("\n\n\n\n\n# rtk-hook-version: 7"), 0);
    assert_eq!(parse_hook_version("1\n2\n3\n4\n5\n"), 0);
    assert_eq!(parse_hook_version("1\n2\n3\n4\n5\n# rtk-hook-version: 7\n"), 0);
}

#[test]
fn the_first_declaration_decides() {
    assert_eq!(parse_hook_version("# rtk-hook-version: x\n# rtk-hook-version: 256\n# rtk-hook-version:255\r\n# rtk-hook-version: 1"), 255);
    assert_eq!(parse_hook_version(" # rtk-hook-version: 7"), 0);
    assert_eq!(parse_hook_version("# rtk-hook-version:\t+4 "), 4);
    assert_eq!(parse_hook_version("# rtk-hook-version: 4 5"), 0);
}

#[test]
fn every_version_is_read_back() {
    for v in 0..=255u8 {
        assert_eq!(parse_hook_version(&format!("#!/bin/sh\n# rtk-hook-version: {}\nrest", v)), v);
    }
}

#[test]
fn settings_register_the_hook() {
    let is = |s: &str, tool: &str| binary_hook_registered(&Some(s.to_string()), tool);
    assert!(is(REGISTERED, "tool"));
    assert!(!is(REGISTERED, "other"));
    assert!(!is("", "tool"));
    assert!(!is(" \n", "tool"));
    assert!(!is("{", "tool"));
    assert!(!is("[]", "tool"));
    assert!(!is(r#"{"hooks": {"PostToolUse": []}}"#, "tool"));
    assert!(!is(r#"{"hooks": {"PreToolUse": {}}}"#, "tool"));
    assert!(!is(r#"{"hooks": [{"command": "rtk hook tool"}]}"#, "tool"));
    assert!(!binary_hook_registered(&None, "tool"));
    // Of two members of one name the last counts.
    assert!(is(r#"{"hooks": 1, "hooks": {"PreToolUse": [{"hooks": [{"command": "rtk hook tool"}]}]}}"#, "tool"));
    // Escapes are resolved.
    assert!(is(r#"{"hooks": {"PreToolUse": [{"hooks": [{"command": "rtk\u0020hook tool"}]}]}}"#, "tool"));
}

#[test]
fn trees_register_the_hook() {
    let text = |s: &str| Json::Text(s.to_string());
    let table = |k: &str, v: Json| Json::Table(vec![(k.to_string(), v)]);
    let tree = |command: Json| {
        table("hooks", table("PreToolUse", Json::List(vec![
            Json::Scalar,
            table("hooks", Json::List(vec![table("command", command)])),
        ])))
    };
    assert!(registers_command(&tree(text("go")), "go"));
    assert!(!registers_command(&tree(text("go")), "stay"));
    assert!(!registers_command(&tree(Json::Scalar), "go"));
    assert!(!registers_command(&Json::Scalar, "go"));
    assert!(!registers_command(&table("hooks", table("PreToolUse", text("go"))), "go"));
}

#[test]
fn how_the_hook_stands() {
    let mut p = probe();
    assert_eq!(status(&p), HookStatus::Missing);
    p.powershell_hook = script("# rtk-hook-version: 3");
    assert_eq!(status(&p), HookStatus::UpToDate);
    p.shell_hook = script("# rtk-hook-version: 2");
    assert_eq!(status(&p), HookStatus::Outdated);
    p.shell_hook = ScriptFile::Unreadable;
    assert_eq!(status(&p), HookStatus::Outdated);
    p.settings = Some(REGISTERED.to_string());
    assert_eq!(status(&p), HookStatus::Outdated);
    p.shell_hook = ScriptFile::Absent;
    assert_eq!(status(&p), HookStatus::UpToDate);
    p.powershell_hook = ScriptFile::Unreadable;
    assert_eq!(status(&p), HookStatus::UpToDate);
    let mut p = probe();
    p.tool_dir_found = false;
    assert_eq!(status(&p), HookStatus::UpToDate);
    let mut p = probe();
    p.home_found = false;
    assert_eq!(status(&p), HookStatus::UpToDate);
}

#[test]
fn a_registered_command_needs_no_script() {
    let mut p = probe();
    p.settings = Some(REGISTERED.to_string());
    assert_eq!(status(&p), HookStatus::UpToDate);
    p.tool = "other".to_string();
    assert_eq!(status(&p), HookStatus::Missing);
    p.settings = Some("{".to_string());
    assert_eq!(status(&p), HookStatus::Missing);
}

#[test]
fn json_is_nested_to_a_limit() {
    let nested = |n: usize| "[".repeat(n) + &"]".repeat(n);
    assert!(parse_json(&nested(127)).is_some());
    assert!(parse_json(&nested(128)).is_none());
}

#[test]
fn warnings_come_once_a_day() {
    let p = probe();
    assert!(maybe_warn(&p, &WarnMarker::Absent).unwrap().contains("No hook installed"));
    assert!(maybe_warn(&p, &WarnMarker::NoPlace).is_none());
    assert!(maybe_warn(&p, &WarnMarker::Touched(Some(86_399))).is_none());
    assert!(maybe_warn(&p, &WarnMarker::Touched(Some(86_400))).is_some());
    assert!(maybe_warn(&p, &WarnMarker::Touched(None)).is_some());
    assert!(check_and_warn(HookStatus::Outdated, &WarnMarker::Absent).unwrap().contains("Hook outdated"));
    assert!(check_and_warn(HookStatus::UpToDate, &WarnMarker::Absent).is_none());
}

#[test]
fn where_things_are_looked_for() {
    let l = hook_locations("/home/me", "tool", Unix);
    assert_eq!(l.tool_dir, "/home/me/.tool");
    assert_eq!(l.settings, "/home/me/.tool/settings.json");
    assert_eq!(l.shell_hook, "/home/me/.tool/hooks/rtk-rewrite.sh");
    assert_eq!(l.powershell_hook, "/home/me/.tool/hooks/rtk-rewrite.ps1");
    assert_eq!(warn_marker_path("/data/", Unix), "/data/rtk/.hook_warn_last");
    let paths = other_integration_paths("/h", "tool", Unix);
    assert_eq!(paths.len(), 5);
    assert_eq!(paths[1], "/h/.cursor/hooks/rtk-rewrite.sh");
    assert_eq!(paths[2], "/h/.tool/hooks/rtk-rewrite.ps1");
    assert_eq!(paths[3], "/h/.codex/AGENTS.md");
    assert!(other_integration_installed(&[false, true, false]));
    assert!(!other_integration_installed(&[false, false]));
}

#[test]
fn where_things_are_looked_for_on_windows() {
    let l = hook_locations("C:\\Users\\me", "tool", Windows);
    assert_eq!(l.tool_dir, "C:\\Users\\me\\.tool");
    assert_eq!(l.settings, "C:\\Users\\me\\.tool\\settings.json");
    assert_eq!(l.shell_hook, "C:\\Users\\me\\.tool\\hooks\\rtk-rewrite.sh");
    assert_eq!(hook_locations("C:", "tool", Windows).tool_dir, "C:.tool");
}

#[test]
fn json_is_read_to_its_leaves() {
    let text = r#"{"a": [1, "x", null, {"b": [[]]}], "c": true}"#;
    let root = parse_json(text).unwrap();
    let Some(Json::List(items)) = root.get("a") else { panic!("no list") };
    assert_eq!(items.len(), 4);
    assert!(matches!(items[0], Json::Scalar));
    assert!(matches!(&items[1], Json::Text(t) if t == "x"));
    assert!(matches!(items[2], Json::Scalar));
    let Some(Json::List(inner)) = items[3].get("b") else { panic!("no list") };
    assert!(matches!(&inner[0], Json::List(v) if v.is_empty()));
    assert!(matches!(root.get("c"), Some(Json::Scalar)));
    assert!(root.get("d").is_none());
    assert!(parse_json("[1,]").is_none());
    assert!(parse_json("").is_none());
}
